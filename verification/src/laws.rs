//! Properties of the library that relate its functions, stated over their specifications
//! and proved.

use vstd::prelude::*;
use crate::index::window;
use crate::gcal::{count_steps, existing_index, lemma_key_pos, plan_state};
use crate::events::{event_of_fields, fields_read, is_entry_of, lemma_entry_reads_as, opt_items, EventFields};
use crate::models::{opt_str, EventMetadata, EventView};
use crate::storage::string_items_spec;
use crate::yaml::YamlValue;
use crate::numbers::{all_ascii_digits, digit_char, digits_value, int_text, is_ascii_digit, nat_text, parsed_i64};
use crate::repository::{
    create_result, rejoined, cursor_offset, delete_result, is_bullet, is_full_task, lead_ws, line_index, merged_ids,
    retexted_line, starts_as_task, toggle_result, toggled_line, update_result,
};
use crate::tasks::{
    is_task_line, resolvable, resolved_task, task_from_line, tasks_in, tasks_of_lines, EventRef,
};
use crate::models::TaskView;
use crate::renderer::with_refs;
use crate::storage::{
    encoded_space, sanitized, after_open_fence, fence, fence_start, framed_body, framed_frontmatter,
    framed_yaml, frontmatter_split, is_fence_line, lemma_first_fence_is,
    lemma_cpo_pieces, other_than, title_in_line, title_of,
    title_of_lines, untitled, preview_of, preview_text, pushed_recent, StructureProbe, events_name, md_ext, notes_name, projects_name, structure_entry, structure_of,
    tasks_name, valid_vault, with_md_ext,
};
use crate::text::{
    replace_seq, byte_len, utf8_len, join_seq, words_of, has_prefix, lemma_byte_len_concat,
    has_suffix, is_ws, lemma_pieces_nonempty, lines_of, split_pieces, strip_cr, trim_end_seq,
    trim_seq, trim_start_seq,
};

verus! {

proof fn lemma_nat_text(v: nat)
    ensures
        nat_text(v).len() > 0,
        all_ascii_digits(nat_text(v)),
        digits_value(nat_text(v)) == v,
    decreases v,
{
    if v >= 10 {
        lemma_nat_text(v / 10);
        let s = nat_text(v);
        let d = (v % 10) as int;
        assert(s.drop_last() == nat_text(v / 10));
        assert(s.last() == digit_char(d));
        assert(digit_char(d) as int - '0' as int == d);
        assert(digits_value(s) == digits_value(nat_text(v / 10)) * 10 + d);
        assert((v / 10) * 10 + v % 10 == v) by (nonlinear_arith);
        assert forall|i: int| 0 <= i < s.len() implies is_ascii_digit(#[trigger] s[i]) by {
            if i < s.len() - 1 {
                assert(s[i] == nat_text(v / 10)[i]);
            }
        }
    } else {
        let s = nat_text(v);
        assert(s.drop_last().len() == 0);
        assert(digit_char(v as int) as int - '0' as int == v);
        assert(digits_value(s.drop_last()) == 0);
        assert(digits_value(s) == digits_value(s.drop_last()) * 10 + (s.last() as int - '0' as int));
    }
}

/// The decimal text of an `i64` parses back to it: `str::parse::<i64>` undoes `Display`.
pub proof fn law_int_text_parses_back(n: i64)
    ensures
        parsed_i64(int_text(n as int)) == Some(n),
{
    if n < 0 {
        let m = (-n) as nat;
        lemma_nat_text(m);
        let s = int_text(n as int);
        assert(s.drop_first() == nat_text(m));
        assert(s[0] == '-');
    } else {
        lemma_nat_text(n as nat);
        let s = nat_text(n as nat);
        assert(is_ascii_digit(s[0]));
    }
}

/// A page's next cursor reads back as the offset of the next page.
pub proof fn law_next_cursor_reads_back(offset: i64, page_size: u32)
    requires
        offset + page_size <= i64::MAX,
    ensures
        cursor_offset(Some(int_text(offset + page_size))) == offset + page_size,
{
    law_int_text_parses_back((offset + page_size) as i64);
}

/// A vault is valid exactly when its health map reports `.`, `events.yaml` and
/// `tasks.md` present.
pub proof fn law_valid_vault_by_structure(probe: StructureProbe)
    ensures
        valid_vault(probe) == (probe.root_is_dir && probe.events_exists && probe.tasks_exists),
{
    let m = structure_of(probe);
    reveal_with_fuel(structure_entry, 6);
    assert(m.drop_first().drop_first().drop_first() =~= seq![(events_name(), probe.events_exists), (tasks_name(), probe.tasks_exists)]);
    assert(seq!['.'] != notes_name() && seq!['.'] != projects_name() && seq!['.'] != events_name() && seq!['.'] != tasks_name());
    assert(events_name() != seq!['.'] && events_name() != notes_name() && events_name() != projects_name());
    assert(tasks_name() != seq!['.'] && tasks_name() != notes_name() && tasks_name() != projects_name() && tasks_name() != events_name());
}

/// Ensuring the `.md` extension twice is ensuring it once.
pub proof fn law_md_ext_idempotent(name: Seq<char>)
    ensures
        with_md_ext(with_md_ext(name)) == with_md_ext(name),
        has_suffix(with_md_ext(name), md_ext()),
{
    if !has_suffix(name, md_ext()) {
        let x = name + md_ext();
        assert(x.skip(x.len() - 3) =~= md_ext());
    }
}

proof fn lemma_lead_ws_bounds(s: Seq<char>)
    ensures
        lead_ws(s) <= s.len(),
        forall|j: int| 0 <= j < lead_ws(s) ==> is_ws(#[trigger] s[j]),
        lead_ws(s) < s.len() ==> !is_ws(s[lead_ws(s) as int]),
    decreases s.len(),
{
    if s.len() > 0 && is_ws(s[0]) {
        lemma_lead_ws_bounds(s.drop_first());
        assert forall|j: int| 0 <= j < lead_ws(s) implies is_ws(#[trigger] s[j]) by {
            if j > 0 {
                assert(s[j] == s.drop_first()[j - 1]);
            }
        }
    }
}

proof fn lemma_lead_ws_at(s: Seq<char>, k: int)
    requires
        0 <= k < s.len(),
        forall|j: int| 0 <= j < k ==> is_ws(#[trigger] s[j]),
        !is_ws(s[k]),
    ensures
        lead_ws(s) == k,
    decreases k,
{
    if k > 0 {
        let t = s.drop_first();
        assert forall|j: int| 0 <= j < k - 1 implies is_ws(#[trigger] t[j]) by {
            assert(t[j] == s[j + 1]);
        }
        lemma_lead_ws_at(t, k - 1);
    }
}

/// Toggling a task line keeps it a task line, flips whether it is checked, and
/// toggling it again gives the line back (for the markers ` ` and `x`; `X` comes back as
/// `x`).
pub proof fn law_toggle_line(l: Seq<char>)
    requires
        is_full_task(l),
    ensures
        is_full_task(toggled_line(l)),
        lead_ws(toggled_line(l)) == lead_ws(l),
        (toggled_line(l)[lead_ws(l) as int + 3] == 'x') == (l[lead_ws(l) as int + 3] == ' '),
        toggled_line(l).len() == l.len(),
        forall|j: int|
            0 <= j < l.len() && j != lead_ws(l) as int + 3 ==> #[trigger] toggled_line(l)[j] == l[j],
        l[lead_ws(l) as int + 3] != 'X' ==> toggled_line(toggled_line(l)) == l,
{
    let k = lead_ws(l) as int;
    let t = toggled_line(l);
    lemma_lead_ws_bounds(l);
    assert(t.len() == l.len());
    assert forall|j: int| 0 <= j < l.len() && j != k + 3 implies #[trigger] t[j] == l[j] by {
        if j < k + 3 {
            assert(t[j] == l.take(k + 3)[j]);
        } else {
            assert(t[j] == l.skip(k + 4)[j - k - 4]);
        }
    }
    assert(t[k + 3] == (if l[k + 3] == 'x' || l[k + 3] == 'X' { ' ' } else { 'x' }));
    assert(!is_ws(l[k])) by {
        assert(is_bullet(l[k]));
    }
    assert forall|j: int| 0 <= j < k implies is_ws(#[trigger] t[j]) by {
        assert(t[j] == l[j]);
    }
    lemma_lead_ws_at(t, k);
    if l[k + 3] != 'X' {
        let tt = toggled_line(t);
        assert(tt.len() == l.len());
        assert forall|j: int| 0 <= j < l.len() implies #[trigger] tt[j] == l[j] by {
            if j < k + 3 {
                assert(tt[j] == t.take(k + 3)[j]);
            } else if j > k + 3 {
                assert(tt[j] == t.skip(k + 4)[j - k - 4]);
            }
        }
        assert(tt =~= l);
    }
}

proof fn lemma_merged_ids(ids: Seq<Seq<char>>, inherited: Seq<Seq<char>>)
    ensures
        merged_ids(ids, inherited).len() >= ids.len(),
        merged_ids(ids, inherited).take(ids.len() as int) == ids,
        forall|x: Seq<char>| #[trigger]
            merged_ids(ids, inherited).contains(x) <==> (ids.contains(x) || inherited.contains(x)),
        ids.no_duplicates() ==> merged_ids(ids, inherited).no_duplicates(),
    decreases inherited.len(),
{
    if inherited.len() > 0 {
        let rest = inherited.drop_last();
        let m = merged_ids(ids, rest);
        let x = inherited.last();
        lemma_merged_ids(ids, rest);
        assert forall|y: Seq<char>| inherited.contains(y) <==> (rest.contains(y) || y == x) by {
            if inherited.contains(y) {
                let i = choose|i: int| 0 <= i < inherited.len() && inherited[i] == y;
                if i < inherited.len() - 1 {
                    assert(rest[i] == y);
                }
            }
            if rest.contains(y) {
                let i = choose|i: int| 0 <= i < rest.len() && rest[i] == y;
                assert(inherited[i] == y);
            }
            if y == x {
                assert(inherited[inherited.len() - 1] == y);
            }
        }
        if !m.contains(x) {
            let r = m.push(x);
            assert(r.take(ids.len() as int) =~= m.take(ids.len() as int));
            assert forall|y: Seq<char>| #[trigger] r.contains(y) <==> (m.contains(y) || y == x) by {
                if r.contains(y) {
                    let i = choose|i: int| 0 <= i < r.len() && r[i] == y;
                    if i < m.len() {
                        assert(m[i] == y);
                    }
                }
                if m.contains(y) {
                    let i = choose|i: int| 0 <= i < m.len() && m[i] == y;
                    assert(r[i] == y);
                }
                if y == x {
                    assert(r[m.len() as int] == y);
                }
            }
            if ids.no_duplicates() {
                assert forall|i: int, j: int| 0 <= i < r.len() && 0 <= j < r.len() && i != j implies r[i] != r[j] by {
                    if i < m.len() && j < m.len() {
                    } else if i == m.len() {
                        assert(m.contains(r[j]));
                    } else {
                        assert(m.contains(r[i]));
                    }
                }
            }
        }
    }
}

proof fn lemma_merged_ids_present(ids: Seq<Seq<char>>, inherited: Seq<Seq<char>>)
    requires
        forall|x: Seq<char>| inherited.contains(x) ==> ids.contains(x),
    ensures
        merged_ids(ids, inherited) == ids,
    decreases inherited.len(),
{
    if inherited.len() > 0 {
        let rest = inherited.drop_last();
        assert forall|x: Seq<char>| rest.contains(x) implies ids.contains(x) by {
            let i = choose|i: int| 0 <= i < rest.len() && rest[i] == x;
            assert(inherited[i] == x);
        }
        lemma_merged_ids_present(ids, rest);
        assert(inherited.contains(inherited.last())) by {
            assert(inherited[inherited.len() - 1] == inherited.last());
        }
    }
}

/// Merging inherited ids keeps the task's own ids first and in order, adds exactly the
/// inherited ids it lacked, brings in no duplicate, and merging the same ids again
/// changes nothing.
pub proof fn law_merge_ids(ids: Seq<Seq<char>>, inherited: Seq<Seq<char>>)
    ensures
        merged_ids(ids, inherited).take(ids.len() as int) == ids,
        forall|x: Seq<char>| #[trigger]
            merged_ids(ids, inherited).contains(x) <==> (ids.contains(x) || inherited.contains(x)),
        ids.no_duplicates() ==> merged_ids(ids, inherited).no_duplicates(),
        merged_ids(merged_ids(ids, inherited), inherited) == merged_ids(ids, inherited),
{
    lemma_merged_ids(ids, inherited);
    let m = merged_ids(ids, inherited);
    assert forall|x: Seq<char>| inherited.contains(x) implies m.contains(x) by {}
    lemma_merged_ids_present(m, inherited);
}

proof fn lemma_filter_all(s: Seq<Seq<char>>, f: spec_fn(Seq<char>) -> bool)
    requires
        forall|i: int| 0 <= i < s.len() ==> f(#[trigger] s[i]),
    ensures
        s.filter(f) == s,
    decreases s.len(),
{
    reveal(Seq::filter);
    if s.len() > 0 {
        lemma_filter_all(s.drop_last(), f);
        assert(s.drop_last().push(s.last()) =~= s);
    }
}

/// Opening a vault puts it first in the recent list, keeps at most ten entries and no
/// second copy of it, and opening it again right away changes nothing.
pub proof fn law_push_recent(recent: Seq<Seq<char>>, vault: Seq<char>)
    ensures
        pushed_recent(recent, vault).len() >= 1,
        pushed_recent(recent, vault).len() <= 10,
        pushed_recent(recent, vault)[0] == vault,
        forall|i: int|
            0 < i < pushed_recent(recent, vault).len() ==> #[trigger] pushed_recent(recent, vault)[i]
                != vault,
        pushed_recent(pushed_recent(recent, vault), vault) == pushed_recent(recent, vault),
{
    let f = other_than(vault);
    let fl = recent.filter(f);
    let kept = seq![vault] + fl;
    let p = pushed_recent(recent, vault);
    let n: int = if kept.len() < 10 { kept.len() as int } else { 10 };
    assert(p == kept.take(n));
    assert forall|i: int| 0 <= i < fl.len() implies f(#[trigger] fl[i]) by {
        recent.lemma_filter_pred(f, i);
    }
    assert forall|i: int| 0 < i < p.len() implies #[trigger] p[i] != vault by {
        assert(p[i] == fl[i - 1]);
        assert(f(fl[i - 1]));
    }
    let tail = p.drop_first();
    assert(p =~= seq![vault] + tail);
    assert forall|i: int| 0 <= i < tail.len() implies f(#[trigger] tail[i]) by {
        assert(tail[i] == p[i + 1]);
    }
    tail.lemma_filter_prepend(vault, f);
    lemma_filter_all(tail, f);
    assert((seq![vault] + tail).filter(f) == tail);
    let kept2 = seq![vault] + p.filter(f);
    assert(kept2 =~= p);
    assert(pushed_recent(p, vault) == kept2.take(if kept2.len() < 10 { kept2.len() as int } else { 10 }));
    assert(kept2.take(kept2.len() as int) =~= kept2);
}

/// A synchronisation run accounts for every fetched event once, as created, updated or
/// skipped; and each existing calendar event is either matched by an update or a skip,
/// or counted as stale.
pub proof fn law_sync_counts(fetched: Seq<EventView>, existing: Seq<EventView>, account: Seq<char>, cal: Seq<char>)
    ensures
        count_steps(plan_state(fetched, existing, account, cal).0, 0) + count_steps(
            plan_state(fetched, existing, account, cal).0,
            1,
        ) + count_steps(plan_state(fetched, existing, account, cal).0, 2) == fetched.len(),
        plan_state(fetched, existing, account, cal).1.len() + count_steps(
            plan_state(fetched, existing, account, cal).0,
            1,
        ) + count_steps(plan_state(fetched, existing, account, cal).0, 2) == existing_index(
            existing,
            account,
            cal,
        ).len(),
    decreases fetched.len(),
{
    if fetched.len() > 0 {
        let rest = fetched.drop_last();
        law_sync_counts(rest, existing, account, cal);
        let (steps, rem) = plan_state(rest, existing, account, cal);
        let f = fetched.last();
        lemma_key_pos(rem, f.metadata.source_event_id);
        let ns = plan_state(fetched, existing, account, cal).0;
        assert(ns.drop_last() == steps);
    }
}

proof fn lemma_pieces_len(s: Seq<char>, sep: char)
    ensures
        1 <= split_pieces(s, sep).len() <= s.len() + 1,
    decreases s.len(),
{
    if s.len() > 0 {
        lemma_pieces_len(s.drop_last(), sep);
    }
}

proof fn lemma_trim_start_skip(s: Seq<char>)
    ensures
        trim_start_seq(s) == s.skip(lead_ws(s) as int),
    decreases s.len(),
{
    lemma_lead_ws_bounds(s);
    if s.len() > 0 && is_ws(s[0]) {
        lemma_trim_start_skip(s.drop_first());
        lemma_lead_ws_bounds(s.drop_first());
        assert(s.drop_first().skip(lead_ws(s.drop_first()) as int) =~= s.skip(lead_ws(s) as int));
    } else {
        assert(s.skip(0) =~= s);
    }
}

proof fn lemma_trim_end_prefix(s: Seq<char>)
    ensures
        trim_end_seq(s).len() <= s.len(),
        trim_end_seq(s) == s.take(trim_end_seq(s).len() as int),
    decreases s.len(),
{
    if s.len() > 0 && is_ws(s.last()) {
        lemma_trim_end_prefix(s.drop_last());
        assert(s.drop_last().take(trim_end_seq(s).len() as int) =~= s.take(
            trim_end_seq(s).len() as int,
        ));
    } else {
        assert(s.take(s.len() as int) =~= s);
    }
}

proof fn lemma_tasks_of_lines(ls: Seq<Seq<char>>, src: Seq<char>)
    requires
        ls.len() <= i64::MAX,
    ensures
        forall|j: int|
            0 <= j < tasks_of_lines(ls, src).len() ==> {
                let t = #[trigger] tasks_of_lines(ls, src)[j];
                &&& 1 <= t.line_number <= ls.len()
                &&& task_from_line(ls[t.line_number - 1], src, t.line_number as int) == Some(t)
            },
        forall|i: int, j: int|
            0 <= i < j < tasks_of_lines(ls, src).len() ==> #[trigger] tasks_of_lines(ls, src)[i].line_number
                < #[trigger] tasks_of_lines(ls, src)[j].line_number,
    decreases ls.len(),
{
    if ls.len() > 0 {
        let rest = ls.drop_last();
        lemma_tasks_of_lines(rest, src);
        let tr = tasks_of_lines(rest, src);
        let tt = tasks_of_lines(ls, src);
        assert forall|j: int| 0 <= j < tr.len() implies rest[tr[j].line_number - 1] == ls[tr[j].line_number - 1] by {}
        match task_from_line(ls.last(), src, ls.len() as int) {
            Some(t) => {
                assert(tt == tr.push(t));
                assert(t.line_number == ls.len());
                assert forall|j: int| 0 <= j < tt.len() implies {
                    let u = #[trigger] tt[j];
                    &&& 1 <= u.line_number <= ls.len()
                    &&& task_from_line(ls[u.line_number - 1], src, u.line_number as int) == Some(u)
                } by {
                    if j < tr.len() {
                        assert(tt[j] == tr[j]);
                    }
                }
                assert forall|i: int, j: int| 0 <= i < j < tt.len() implies #[trigger] tt[i].line_number
                    < #[trigger] tt[j].line_number by {
                    assert(tt[i] == tr[i]);
                    if j < tr.len() {
                        assert(tt[j] == tr[j]);
                    }
                }
            },
            None => {},
        }
    }
}

/// The line a task was read from, as the file's `'\n'`-separated pieces hold it, is a
/// full task line for the editing functions.
proof fn lemma_task_line_editable(line: Seq<char>, piece: Seq<char>)
    requires
        is_task_line(trim_seq(line)),
        piece == line || piece == line.push('\r'),
    ensures
        is_full_task(piece),
        lead_ws(piece) == lead_ws(line),
{
    let k = lead_ws(line) as int;
    lemma_lead_ws_bounds(line);
    lemma_trim_start_skip(line);
    let st = line.skip(k);
    lemma_trim_end_prefix(st);
    let s = trim_seq(line);
    assert(s == st.take(s.len() as int));
    assert forall|j: int| 0 <= j < s.len() implies #[trigger] line[k + j] == s[j] by {
        assert(s[j] == st[j]);
    }
    assert(line[k] == s[0]);
    assert(!is_ws(piece[k])) by {
        assert(piece[k] == line[k]);
    }
    assert forall|j: int| 0 <= j < k implies is_ws(#[trigger] piece[j]) by {
        assert(piece[j] == line[j]);
    }
    lemma_lead_ws_at(piece, k);
    assert(line[k + 1] == s[1] && line[k + 2] == s[2] && line[k + 3] == s[3]);
    assert(line[k + 4] == s[4] && line[k + 5] == s[5]);
    assert(piece[k + 1] == line[k + 1] && piece[k + 2] == line[k + 2] && piece[k + 3] == line[k + 3]);
    assert(piece[k + 4] == line[k + 4] && piece[k + 5] == line[k + 5]);
}

/// Every task that parsing finds names, by its line number, the line it was read from;
/// line numbers increase; and that line number is one the editing functions accept:
/// toggling and deleting it succeed, and so does replacing its text with any text that
/// is not blank.
pub proof fn law_parsed_tasks_are_editable(text: Seq<char>, src: Seq<char>, new_text: Seq<char>)
    requires
        text.len() < i64::MAX,
        text.len() < usize::MAX,
    ensures
        forall|j: int|
            0 <= j < tasks_in(text, src).len() ==> {
                let t = #[trigger] tasks_in(text, src)[j];
                &&& 1 <= t.line_number <= lines_of(text).len()
                &&& lines_of(text)[t.line_number - 1] == t.raw_line
                &&& t.source_file == src
                &&& toggle_result(text, t.line_number) is Ok
                &&& delete_result(text, t.line_number) is Ok
                &&& (trim_seq(new_text).len() > 0 ==> update_result(text, t.line_number, new_text) is Ok)
            },
        forall|i: int, j: int|
            0 <= i < j < tasks_in(text, src).len() ==> #[trigger] tasks_in(text, src)[i].line_number
                < #[trigger] tasks_in(text, src)[j].line_number,
{
    let ls = lines_of(text);
    let ps = split_pieces(text, '\n');
    lemma_pieces_len(text, '\n');
    let done = ps.drop_last().map_values(|l: Seq<char>| strip_cr(l));
    assert(ls.len() <= ps.len());
    lemma_tasks_of_lines(ls, src);
    let ts = tasks_in(text, src);
    assert forall|j: int| 0 <= j < ts.len() implies {
        let t = #[trigger] ts[j];
        &&& 1 <= t.line_number <= lines_of(text).len()
        &&& lines_of(text)[t.line_number - 1] == t.raw_line
        &&& t.source_file == src
        &&& toggle_result(text, t.line_number) is Ok
        &&& delete_result(text, t.line_number) is Ok
        &&& (trim_seq(new_text).len() > 0 ==> update_result(text, t.line_number, new_text) is Ok)
    } by {
        let t = ts[j];
        let n = t.line_number;
        let i = n - 1;
        let line = ls[i];
        assert(task_from_line(line, src, n as int) == Some(t));
        assert(is_task_line(trim_seq(line)));
        assert(line_index(n) as int == i);
        let piece = ps[i];
        if i < ps.len() - 1 {
            assert(line == done[i]);
            assert(line == strip_cr(piece));
            if piece.len() > 0 && piece.last() == '\r' {
                assert(piece =~= line.push('\r'));
            }
        } else {
            assert(line == ps.last());
        }
        lemma_task_line_editable(line, piece);
        assert(starts_as_task(piece));
    }
}

proof fn lemma_split_concat(x: Seq<char>, z: Seq<char>, sep: char)
    ensures
        split_pieces(x + seq![sep] + z, sep) == split_pieces(x, sep) + split_pieces(z, sep),
    decreases z.len(),
{
    let w = x + seq![sep] + z;
    if z.len() == 0 {
        assert(w.drop_last() =~= x);
        assert(split_pieces(z, sep) == seq![Seq::<char>::empty()]);
        assert(split_pieces(w, sep) =~= split_pieces(x, sep) + split_pieces(z, sep));
    } else {
        let zl = z.drop_last();
        lemma_split_concat(x, zl, sep);
        lemma_pieces_nonempty(zl, sep);
        assert(w.drop_last() =~= x + seq![sep] + zl);
        assert(w.last() == z.last());
        let a = split_pieces(x, sep);
        let c = split_pieces(zl, sep);
        if z.last() == sep {
            assert(split_pieces(w, sep) =~= (a + c).push(Seq::<char>::empty()));
            assert((a + c).push(Seq::<char>::empty()) =~= a + c.push(Seq::<char>::empty()));
        } else {
            let ac = a + c;
            assert(ac.last() == c.last());
            assert(ac.update(ac.len() - 1, ac.last().push(z.last())) =~= a + c.update(
                c.len() - 1,
                c.last().push(z.last()),
            ));
        }
    }
}

proof fn lemma_pieces_without(s: Seq<char>, sep: char, c: char)
    requires
        forall|i: int| 0 <= i < s.len() ==> s[i] != c,
    ensures
        forall|j: int, i: int|
            0 <= j < split_pieces(s, sep).len() && 0 <= i < split_pieces(s, sep)[j].len()
                ==> #[trigger] split_pieces(s, sep)[j][i] != c,
    decreases s.len(),
{
    if s.len() > 0 {
        let sl = s.drop_last();
        lemma_pieces_without(sl, sep, c);
        lemma_pieces_nonempty(sl, sep);
        let p = split_pieces(sl, sep);
        if s.last() != sep {
            let q = split_pieces(s, sep);
            assert forall|j: int, i: int| 0 <= j < q.len() && 0 <= i < q[j].len() implies #[trigger] q[j][i]
                != c by {
                if j < p.len() - 1 {
                    assert(q[j] == p[j]);
                } else {
                    assert(q[j] == p.last().push(s.last()));
                    if i < p.last().len() {
                        assert(q[j][i] == p[p.len() - 1][i]);
                    } else {
                        assert(q[j][i] == s[s.len() - 1]);
                    }
                }
            }
        } else {
            let q = split_pieces(s, sep);
            assert forall|j: int, i: int| 0 <= j < q.len() && 0 <= i < q[j].len() implies #[trigger] q[j][i]
                != c by {
                assert(q[j] == p.push(Seq::<char>::empty())[j]);
                if j < p.len() {
                    assert(q[j] == p[j]);
                }
            }
        }
    }
}

/// The text after the opening fence of a framed file.
spec fn after_fence_of(y: Seq<char>, b: Seq<char>) -> Seq<char> {
    y + seq!['\n'] + (seq!['-', '-', '-'] + seq!['\n'] + (Seq::<char>::empty() + seq!['\n'] + b))
}

proof fn lemma_dashes_pieces()
    ensures
        split_pieces(seq!['-', '-', '-'], '\n') == seq![seq!['-', '-', '-']],
        trim_end_seq(seq!['-', '-', '-']) == seq!['-', '-', '-'],
{
    let e = Seq::<char>::empty();
    let t1 = seq!['-'];
    let t2 = seq!['-', '-'];
    let t3 = seq!['-', '-', '-'];
    assert(split_pieces(e, '\n') == seq![e]);
    assert(t1.drop_last() =~= e);
    assert(split_pieces(t1, '\n') =~= seq![t1]);
    assert(t2.drop_last() =~= t1);
    assert(t1.push('-') =~= t2);
    assert(t2.last() == '-');
    assert(split_pieces(t2, '\n') =~= seq![t2]);
    assert(t3.drop_last() =~= t2);
    assert(t2.push('-') =~= t3);
    assert(t3.last() == '-');
    assert(split_pieces(t3, '\n') =~= seq![t3]);
    assert(!is_ws('-'));
}

proof fn lemma_framed_fence_start(y: Seq<char>, b: Seq<char>)
    requires
        forall|j: int|
            0 <= j < split_pieces(y, '\n').len() ==> !is_fence_line(
                #[trigger] split_pieces(y, '\n')[j],
            ),
    ensures
        fence_start(after_fence_of(y, b)) == Some(y.len() + 1int),
{
    let a = after_fence_of(y, b);
    let z2 = Seq::<char>::empty() + seq!['\n'] + b;
    let z1 = seq!['-', '-', '-'] + seq!['\n'] + z2;
    lemma_split_concat(y, z1, '\n');
    lemma_split_concat(seq!['-', '-', '-'], z2, '\n');
    lemma_split_concat(Seq::<char>::empty(), b, '\n');
    lemma_dashes_pieces();
    assert(split_pieces(Seq::<char>::empty(), '\n') == seq![Seq::<char>::empty()]);
    let py = split_pieces(y, '\n');
    let pb = split_pieces(b, '\n');
    let pa = split_pieces(a, '\n');
    assert(pa =~= py + seq![seq!['-', '-', '-']] + (seq![Seq::<char>::empty()] + pb));
    let i0 = py.len() as int;
    assert(pa[i0] == seq!['-', '-', '-']);
    assert(is_fence_line(pa[i0]));
    assert forall|j: int| 0 <= j < i0 implies !is_fence_line(#[trigger] pa[j]) by {
        assert(pa[j] == py[j]);
    }
    lemma_first_fence_is(pa, i0);
    assert(pa.take(i0) =~= py);
    lemma_cpo_pieces(y);
}

/// What writing front matter and a body gives back when read: splitting a framed file
/// yields the framed YAML text with its line break, and the body after the blank line
/// (that is, a `'\n'` and the body without its leading line breaks). This holds when no
/// line of the framed YAML text reads as a closing `---`.
pub proof fn law_frontmatter_roundtrip(yaml: Seq<char>, body: Seq<char>)
    requires
        forall|j: int|
            0 <= j < split_pieces(framed_yaml(yaml), '\n').len() ==> !is_fence_line(
                #[trigger] split_pieces(framed_yaml(yaml), '\n')[j],
            ),
    ensures
        frontmatter_split(framed_frontmatter(yaml, body)) == Some(
            (framed_yaml(yaml) + seq!['\n'], seq!['\n'] + framed_body(body)),
        ),
{
    let y = framed_yaml(yaml);
    let b = framed_body(body);
    let f = framed_frontmatter(yaml, body);
    let a = after_fence_of(y, b);
    assert(f =~= seq!['-', '-', '-', '\n'] + a);
    assert(f.take(3) =~= fence());
    assert(has_prefix(f, fence()));
    assert(f.skip(3).take(1) =~= seq!['\n']);
    assert(f.skip(3).skip(1) =~= a);
    assert(after_open_fence(f) == Some(a));
    lemma_framed_fence_start(y, b);
    let k: int = y.len() + 1int;
    assert(a.take(k) =~= y + seq!['\n']);
    let rest = a.skip(k);
    assert(rest =~= seq!['-', '-', '-', '\n', '\n'] + b);
    assert(rest.take(4) =~= seq!['-', '-', '-', '\n']);
    assert(rest.skip(4) =~= seq!['\n'] + b);
}

/// Resolving a task's names and deadline a second time, against the same events and
/// projects, changes nothing; resolution keeps the task's own fields.
pub proof fn law_resolve_idempotent(t: TaskView, m: Seq<(String, EventRef)>, pm: Seq<(String, String)>)
    requires
        resolvable(t, m),
    ensures
        resolvable(resolved_task(t, m, pm), m),
        resolved_task(resolved_task(t, m, pm), m, pm) == resolved_task(t, m, pm),
        resolved_task(t, m, pm).text == t.text,
        resolved_task(t, m, pm).completed == t.completed,
        resolved_task(t, m, pm).raw_line == t.raw_line,
        resolved_task(t, m, pm).source_file == t.source_file,
        resolved_task(t, m, pm).line_number == t.line_number,
        resolved_task(t, m, pm).event_ids == t.event_ids,
        resolved_task(t, m, pm).project_ids == t.project_ids,
        resolved_task(t, m, pm).time_references == t.time_references,
        t.deadline is Some ==> resolved_task(t, m, pm).deadline == t.deadline,
{
}

/// A preview never runs past 101 characters: at most 100 characters of text and the `…`
/// mark; a text of at most 100 characters is its own preview.
pub proof fn law_preview_bounded(body: Seq<char>)
    ensures
        preview_of(body).len() <= 101,
        preview_text(body).len() <= 100 ==> preview_of(body) == preview_text(body),
{
}

proof fn lemma_plain_refs(t: Seq<char>, j: int)
    requires
        0 <= j <= t.len(),
        forall|i: int| 0 <= i < t.len() ==> t[i] != '@' && t[i] != '#',
    ensures
        with_refs(t, j) == t.skip(j),
    decreases t.len() - j,
{
    if j < t.len() {
        lemma_plain_refs(t, j + 1);
        assert(t.skip(j) =~= seq![t[j]] + t.skip(j + 1));
    } else {
        assert(t.skip(j) =~= Seq::<char>::empty());
    }
}

/// Text without `@` or `#` passes through reference rendering unchanged.
pub proof fn law_plain_text_unchanged_by_refs(t: Seq<char>)
    requires
        forall|i: int| 0 <= i < t.len() ==> t[i] != '@' && t[i] != '#',
    ensures
        with_refs(t, 0) == t,
{
    lemma_plain_refs(t, 0);
    assert(t.skip(0) =~= t);
}

proof fn lemma_trim_end_last(s: Seq<char>)
    ensures
        trim_end_seq(s).len() > 0 ==> !is_ws(trim_end_seq(s).last()),
    decreases s.len(),
{
    if s.len() > 0 && is_ws(s.last()) {
        lemma_trim_end_last(s.drop_last());
    }
}

/// Trimming a text whose last character is not whitespace leaves a non-empty text
/// with that same last character.
proof fn lemma_trim_keeps_last(v: Seq<char>)
    requires
        v.len() > 0,
        !is_ws(v.last()),
    ensures
        trim_seq(v).len() > 0,
        trim_seq(v).last() == v.last(),
{
    lemma_trim_start_skip(v);
    lemma_lead_ws_bounds(v);
    let k = lead_ws(v) as int;
    if k == v.len() {
        assert(is_ws(v[v.len() - 1]));
    }
    let u = v.skip(k);
    assert(u.last() == v.last());
    assert(trim_end_seq(u) == u);
}

proof fn lemma_words_nonempty_items(s: Seq<char>)
    ensures
        forall|i: int| 0 <= i < words_of(s).len() ==> #[trigger] words_of(s)[i].len() > 0,
    decreases s.len(),
{
    if s.len() > 0 {
        let p = s.drop_last();
        lemma_words_nonempty_items(p);
        let w = words_of(p);
        let c = s.last();
        if !is_ws(c) && s.len() >= 2 && !is_ws(s[s.len() - 2]) {
            assert(p.last() == s[s.len() - 2]);
            crate::text::lemma_words_nonempty(p);
            let r = w.update(w.len() - 1, w.last().push(c));
            assert(words_of(s) == r);
            assert forall|i: int| 0 <= i < r.len() implies #[trigger] r[i].len() > 0 by {
                if i < w.len() - 1 {
                    assert(r[i] == w[i]);
                }
            }
        } else if !is_ws(c) {
            let r = w.push(seq![c]);
            assert(words_of(s) == r);
            assert forall|i: int| 0 <= i < r.len() implies #[trigger] r[i].len() > 0 by {
                if i < w.len() {
                    assert(r[i] == w[i]);
                }
            }
        }
    }
}

proof fn lemma_join_nonempty(parts: Seq<Seq<char>>, sep: Seq<char>)
    requires
        parts.len() > 0,
        parts.last().len() > 0,
    ensures
        join_seq(parts, sep).len() > 0,
{
}

proof fn lemma_heading_nonempty(ls: Seq<Seq<char>>)
    ensures
        title_of_lines(ls) matches Some(x) ==> x.len() > 0,
    decreases ls.len(),
{
    if ls.len() > 0 {
        let t = trim_seq(ls[0]);
        match title_in_line(t) {
            Some(x) => {
                let n = crate::storage::lead_hashes(t) as int;
                lemma_trim_end_last(trim_start_seq(ls[0]));
                assert(!is_ws(t.last()));
                assert(n + 1 < t.len()) by {
                    if n + 1 == t.len() {
                        assert(t.last() == t[n]);
                    }
                }
                let v = t.skip(n + 1);
                assert(v.last() == t.last());
                lemma_trim_keeps_last(v);
            },
            None => lemma_heading_nonempty(ls.drop_first()),
        }
    }
}

/// A body always has a display title: never empty (`Untitled` when the body has no
/// `# H1` heading and no word).
pub proof fn law_title_nonempty(body: Seq<char>)
    ensures
        title_of(body).len() > 0,
{
    lemma_heading_nonempty(lines_of(body));
    match title_of_lines(lines_of(body)) {
        Some(x) => {},
        None => {
            let w = words_of(body);
            let w6 = w.take(if w.len() < 6 { w.len() as int } else { 6 });
            if w6.len() > 0 {
                lemma_words_nonempty_items(body);
                assert(w6.last() == w[w6.len() - 1]);
                lemma_join_nonempty(w6, seq![' ']);
            } else {
                assert(untitled().len() == 8);
            }
        },
    }
}

proof fn lemma_replace_concat(a: Seq<char>, b: Seq<char>, p: Seq<char>, q: Seq<char>)
    requires
        p.len() > 0,
        forall|i: int|
            0 <= i < a.len() < i + p.len() <= a.len() + b.len() ==> #[trigger] (a + b).subrange(i, i + p.len())
                != p,
    ensures
        replace_seq(a + b, p, q) == replace_seq(a, p, q) + replace_seq(b, p, q),
    decreases a.len(),
{
    let ab = a + b;
    if a.len() == 0 {
        assert(ab =~= b);
        assert(replace_seq(a, p, q) == a);
        assert(replace_seq(a, p, q) + replace_seq(b, p, q) =~= replace_seq(b, p, q));
    } else if ab.len() < p.len() {
        assert(replace_seq(a, p, q) == a);
        assert(replace_seq(b, p, q) == b);
    } else if ab.take(p.len() as int) == p {
        assert(p.len() <= a.len()) by {
            if p.len() > a.len() {
                let i0: int = 0;
                assert((a + b).subrange(i0, i0 + p.len()) =~= ab.take(p.len() as int));
            }
        }
        assert(a.take(p.len() as int) =~= ab.take(p.len() as int));
        let a2 = a.skip(p.len() as int);
        assert(ab.skip(p.len() as int) =~= a2 + b);
        assert forall|i: int|
            0 <= i < a2.len() < i + p.len() <= a2.len() + b.len() implies #[trigger] (a2 + b).subrange(i, i + p.len())
                != p by {
            let j = i + p.len();
            assert((a2 + b).subrange(i, i + p.len()) =~= (a + b).subrange(j, j + p.len()));
        }
        lemma_replace_concat(a2, b, p, q);
        assert(q + (replace_seq(a2, p, q) + replace_seq(b, p, q)) =~= (q + replace_seq(a2, p, q))
            + replace_seq(b, p, q));
    } else {
        let a2 = a.drop_first();
        assert(ab.drop_first() =~= a2 + b);
        assert forall|i: int|
            0 <= i < a2.len() < i + p.len() <= a2.len() + b.len() implies #[trigger] (a2 + b).subrange(i, i + p.len())
                != p by {
            let j = i + 1;
            assert((a2 + b).subrange(i, i + p.len()) =~= (a + b).subrange(j, j + p.len()));
        }
        lemma_replace_concat(a2, b, p, q);
        if a.len() < p.len() {
            assert(replace_seq(a, p, q) == a);
            assert(replace_seq(a2, p, q) == a2);
            assert(seq![a[0]] + (a2 + replace_seq(b, p, q)) =~= a + replace_seq(b, p, q));
        } else {
            assert(a.take(p.len() as int) =~= ab.take(p.len() as int));
            assert(seq![a[0]] + (replace_seq(a2, p, q) + replace_seq(b, p, q)) =~= (seq![a[0]]
                + replace_seq(a2, p, q)) + replace_seq(b, p, q));
        }
    }
}

proof fn lemma_replace_without_first(s: Seq<char>, p: Seq<char>, q: Seq<char>)
    requires
        p.len() > 0,
        forall|i: int| 0 <= i < s.len() ==> s[i] != p[0],
    ensures
        replace_seq(s, p, q) == s,
    decreases s.len(),
{
    if s.len() >= p.len() {
        assert(s.take(p.len() as int)[0] != p[0]);
        lemma_replace_without_first(s.drop_first(), p, q);
        assert(seq![s[0]] + s.drop_first() =~= s);
    }
}

proof fn lemma_replace_keeps_out(s: Seq<char>, p: Seq<char>, q: Seq<char>, c: char)
    requires
        forall|i: int| 0 <= i < s.len() ==> s[i] != c,
        forall|i: int| 0 <= i < q.len() ==> q[i] != c,
    ensures
        forall|i: int| 0 <= i < replace_seq(s, p, q).len() ==> #[trigger] replace_seq(s, p, q)[i] != c,
    decreases s.len(),
{
    if p.len() == 0 || s.len() < p.len() {
    } else if s.take(p.len() as int) == p {
        let s2 = s.skip(p.len() as int);
        lemma_replace_keeps_out(s2, p, q, c);
        let r = replace_seq(s, p, q);
        assert forall|i: int| 0 <= i < r.len() implies #[trigger] r[i] != c by {
            if i >= q.len() {
                assert(r[i] == replace_seq(s2, p, q)[i - q.len()]);
            }
        }
    } else {
        let s2 = s.drop_first();
        lemma_replace_keeps_out(s2, p, q, c);
        let r = replace_seq(s, p, q);
        assert forall|i: int| 0 <= i < r.len() implies #[trigger] r[i] != c by {
            if i >= 1 {
                assert(r[i] == replace_seq(s2, p, q)[i - 1]);
            }
        }
    }
}

proof fn lemma_pieces_single(s: Seq<char>, sep: char)
    requires
        forall|i: int| 0 <= i < s.len() ==> s[i] != sep,
    ensures
        split_pieces(s, sep) == seq![s],
    decreases s.len(),
{
    if s.len() > 0 {
        lemma_pieces_single(s.drop_last(), sep);
        assert(s.last() != sep) by {
            assert(s[s.len() - 1] != sep);
        }
        assert(s.drop_last().push(s.last()) =~= s);
        let p = split_pieces(s.drop_last(), sep);
        assert(p == seq![s.drop_last()]);
        assert(p.len() - 1 == 0);
        assert(p.last() == s.drop_last());
        assert(split_pieces(s, sep) == p.update(p.len() - 1, p.last().push(s.last())));
        assert(p.update(0, s.drop_last().push(s.last())) =~= seq![s]);
    } else {
        assert(s =~= Seq::<char>::empty());
    }
}

pub(crate) proof fn lemma_pieces_sep_free(s: Seq<char>, sep: char)
    ensures
        forall|j: int, i: int|
            0 <= j < split_pieces(s, sep).len() && 0 <= i < split_pieces(s, sep)[j].len()
                ==> #[trigger] split_pieces(s, sep)[j][i] != sep,
    decreases s.len(),
{
    if s.len() > 0 {
        let sl = s.drop_last();
        lemma_pieces_sep_free(sl, sep);
        lemma_pieces_nonempty(sl, sep);
        let p = split_pieces(sl, sep);
        let q = split_pieces(s, sep);
        if s.last() != sep {
            assert forall|j: int, i: int| 0 <= j < q.len() && 0 <= i < q[j].len() implies #[trigger] q[j][i]
                != sep by {
                if j < p.len() - 1 {
                    assert(q[j] == p[j]);
                } else {
                    assert(q[j] == p.last().push(s.last()));
                    if i < p.last().len() {
                        assert(q[j][i] == p[p.len() - 1][i]);
                    }
                }
            }
        } else {
            assert forall|j: int, i: int| 0 <= j < q.len() && 0 <= i < q[j].len() implies #[trigger] q[j][i]
                != sep by {
                assert(q == p.push(Seq::<char>::empty()));
                if j < p.len() {
                    assert(q[j] == p[j]);
                }
            }
        }
    }
}

pub(crate) proof fn lemma_pieces_of_join(ls: Seq<Seq<char>>, sep: char)
    requires
        ls.len() >= 1,
        forall|j: int, i: int| 0 <= j < ls.len() && 0 <= i < ls[j].len() ==> #[trigger] ls[j][i] != sep,
    ensures
        split_pieces(join_seq(ls, seq![sep]), sep) == ls,
    decreases ls.len(),
{
    if ls.len() == 1 {
        lemma_pieces_single(ls[0], sep);
        assert(seq![ls[0]] =~= ls);
    } else {
        let init = ls.drop_last();
        lemma_pieces_of_join(init, sep);
        assert forall|i: int| 0 <= i < ls.last().len() implies ls.last()[i] != sep by {
            assert(ls.last()[i] == ls[ls.len() - 1][i]);
        }
        lemma_pieces_single(ls.last(), sep);
        lemma_split_concat(join_seq(init, seq![sep]), ls.last(), sep);
        assert(init + seq![ls.last()] =~= ls);
    }
}

proof fn lemma_trim_end_concat(x: Seq<char>, y: Seq<char>)
    requires
        trim_end_seq(y).len() > 0,
    ensures
        trim_end_seq(x + y) == x + trim_end_seq(y),
    decreases y.len(),
{
    if y.len() > 0 && is_ws(y.last()) {
        assert((x + y).drop_last() =~= x + y.drop_last());
        lemma_trim_end_concat(x, y.drop_last());
    } else {
        assert(y.len() > 0);
        assert((x + y).last() == y.last());
    }
}

/// The lines of a sanitised text, when its decoded text ends in a line break: the
/// decoded lines, each with trailing whitespace trimmed.
proof fn lemma_sanitized_lines(x: Seq<char>)
    requires
        has_suffix(replace_seq(x, encoded_space(), seq![' ']), seq!['\n']),
    ensures
        lines_of(sanitized(x)) == lines_of(replace_seq(x, encoded_space(), seq![' '])).map_values(
            |l: Seq<char>| trim_end_seq(l),
        ),
{
    let nl = seq!['\n'];
    let r = replace_seq(x, encoded_space(), seq![' ']);
    let r1 = r.drop_last();
    assert(r.last() == '\n') by {
        assert(r.skip(r.len() - 1)[0] == r.last());
    }
    assert(r =~= r1 + nl + Seq::<char>::empty());
    lemma_split_concat(r1, Seq::<char>::empty(), '\n');
    lemma_pieces_nonempty(r1, '\n');
    let pr = split_pieces(r, '\n');
    let lr = lines_of(r);
    assert(pr.last().len() == 0);
    assert(lr.len() >= 1);
    let ll = lr.map_values(|l: Seq<char>| trim_end_seq(l));
    let c = sanitized(x);
    assert(c == join_seq(ll, nl).push('\n'));
    lemma_pieces_sep_free(r, '\n');
    assert forall|j: int, i: int| 0 <= j < ll.len() && 0 <= i < ll[j].len() implies #[trigger] ll[j][i]
        != '\n' by {
        lemma_trim_end_prefix(lr[j]);
        assert(ll[j][i] == lr[j][i]);
        assert(lr[j] == strip_cr(pr[j]));
        assert(lr[j][i] == pr[j][i]);
    }
    lemma_pieces_of_join(ll, '\n');
    let jl = join_seq(ll, nl);
    lemma_split_concat(jl, Seq::<char>::empty(), '\n');
    assert(jl + nl + Seq::<char>::empty() =~= c);
    let pc = split_pieces(c, '\n');
    assert(pc =~= ll + seq![Seq::<char>::empty()]);
    assert forall|j: int| 0 <= j < ll.len() implies #[trigger] strip_cr(ll[j]) == ll[j] by {
        lemma_trim_end_last(lr[j]);
        if ll[j].len() > 0 {
            assert(!is_ws(ll[j].last()));
            assert(is_ws('\r'));
        }
    }
    assert(lines_of(c) =~= ll);
}

/// The decoded text of a file that ends with the line `- [ ] ` and `t`: it ends in a
/// line break, and its last line is that line with `t` decoded.
#[verifier::rlimit(40)]
proof fn lemma_decoded_last_line(base: Seq<char>, t: Seq<char>)
    requires
        base.len() > 0 ==> base.last() == '\n',
        forall|i: int| 0 <= i < t.len() ==> t[i] != '\n',
    ensures
        has_suffix(replace_seq(base + "- [ ] "@ + t + seq!['\n'], encoded_space(), seq![' ']), seq!['\n']),
        lines_of(replace_seq(base + "- [ ] "@ + t + seq!['\n'], encoded_space(), seq![' '])).len() > 0,
        lines_of(replace_seq(base + "- [ ] "@ + t + seq!['\n'], encoded_space(), seq![' '])).last()
            == strip_cr("- [ ] "@ + replace_seq(t, encoded_space(), seq![' '])),
{
    reveal_strlit("- [ ] ");
    let p = encoded_space();
    let q = seq![' '];
    let nl = seq!['\n'];
    let dash = "- [ ] "@;
    assert(dash =~= seq!['-', ' ', '[', ' ', ']', ' ']);
    let x = base + dash + t + nl;
    let rt = replace_seq(t, p, q);
    assert forall|i: int| 0 <= i < q.len() implies q[i] != '\n' by {}
    lemma_replace_keeps_out(t, p, q, '\n');
    let qq = dash + rt;
    assert forall|i: int| 0 <= i < qq.len() implies qq[i] != '\n' by {
        if i >= 6 {
            assert(qq[i] == rt[i - 6]);
        }
    }
    let tail = dash + t + nl;
    assert(x =~= base + tail);
    assert forall|i: int|
        0 <= i < base.len() < i + p.len() <= base.len() + tail.len() implies #[trigger] (base + tail).subrange(i, i + p.len()) != p by {
        let k = base.len() - 1 - i;
        assert((base + tail).subrange(i, i + p.len())[k] == '\n');
    }
    lemma_replace_concat(base, tail, p, q);
    let dt = dash + t;
    assert(tail =~= dt + nl);
    assert forall|i: int|
        0 <= i < dt.len() < i + p.len() <= dt.len() + nl.len() implies #[trigger] (dt + nl).subrange(i, i + p.len())
            != p by {
        let k = dt.len() - i;
        assert((dt + nl).subrange(i, i + p.len())[k] == '\n');
    }
    lemma_replace_concat(dt, nl, p, q);
    assert(replace_seq(nl, p, q) == nl);
    assert forall|i: int|
        0 <= i < dash.len() < i + p.len() <= dash.len() + t.len() implies #[trigger] (dash + t).subrange(i, i + p.len()) != p by {
        assert((dash + t).subrange(i, i + p.len())[0] == dash[i]);
    }
    lemma_replace_concat(dash, t, p, q);
    lemma_replace_without_first(dash, p, q);
    let r0 = replace_seq(base, p, q);
    let r = replace_seq(x, p, q);
    assert(r =~= (r0 + qq) + nl);
    assert(r.skip(r.len() - 1) =~= nl);
    lemma_split_concat(r0 + qq, Seq::<char>::empty(), '\n');
    assert((r0 + qq) + nl + Seq::<char>::empty() =~= r);
    lemma_pieces_single(qq, '\n');
    let w: Seq<Seq<char>> = if base.len() == 0 {
        assert(r0 == base);
        assert(r0 + qq =~= qq);
        Seq::empty()
    } else {
        let b1 = base.drop_last();
        assert(base =~= b1 + nl);
        assert forall|i: int|
            0 <= i < b1.len() < i + p.len() <= b1.len() + nl.len() implies #[trigger] (b1 + nl).subrange(i, i + p.len()) != p by {
            let k = b1.len() - i;
            assert((b1 + nl).subrange(i, i + p.len())[k] == '\n');
        }
        lemma_replace_concat(b1, nl, p, q);
        let r1 = replace_seq(b1, p, q);
        assert(r0 + qq =~= r1 + nl + qq);
        lemma_split_concat(r1, qq, '\n');
        split_pieces(r1, '\n')
    };
    assert(split_pieces(r0 + qq, '\n') == w + seq![qq]);
    let pr = split_pieces(r, '\n');
    assert(pr =~= w + seq![qq] + seq![Seq::<char>::empty()]);
    assert(lines_of(r) =~= (w + seq![qq]).map_values(|l: Seq<char>| strip_cr(l)));
}

/// What creating a task gives back when the file is read: the created line is the last
/// line of `tasks.md`, and it reads as an open task whose text is the trimmed text with
/// encoded spaces decoded. This holds when that text has no line break and is not blank
/// once decoded.
pub proof fn law_created_task_reads_back(existing: Seq<char>, text: Seq<char>, src: Seq<char>)
    requires
        forall|i: int| 0 <= i < trim_seq(text).len() ==> trim_seq(text)[i] != '\n',
        trim_end_seq(replace_seq(trim_seq(text), encoded_space(), seq![' '])).len() > 0,
    ensures
        create_result(existing, text) is Ok,
        ({
            let c = create_result(existing, text)->Ok_0;
            let u = trim_end_seq(replace_seq(trim_seq(text), encoded_space(), seq![' ']));
            let ts = tasks_in(c, src);
            &&& ts.len() > 0
            &&& ts.last().text == u
            &&& !ts.last().completed
            &&& ts.last().raw_line == "- [ ] "@ + u
            &&& ts.last().source_file == src
            &&& ts.last().line_number == lines_of(c).len() as i64
            &&& lines_of(c).last() == "- [ ] "@ + u
        }),
{
    reveal_strlit("- [ ] ");
    let p = encoded_space();
    let q = seq![' '];
    let nl = seq!['\n'];
    let t = trim_seq(text);
    let dash = "- [ ] "@;
    assert(dash =~= seq!['-', ' ', '[', ' ', ']', ' ']);
    assert(t.len() > 0) by {
        if t.len() == 0 {
            assert(replace_seq(t, p, q) == t);
        }
    }
    let base = if existing.len() > 0 && !has_suffix(existing, nl) {
        existing.push('\n')
    } else {
        existing
    };
    assert(base.len() > 0 ==> base.last() == '\n') by {
        if base.len() > 0 && !(existing.len() > 0 && !has_suffix(existing, nl)) {
            assert(existing.skip(existing.len() - 1)[0] == existing.last());
            assert(nl[0] == '\n');
        }
    }
    let x = base + dash + t + nl;
    let rt = replace_seq(t, p, q);
    let u = trim_end_seq(rt);
    lemma_decoded_last_line(base, t);
    lemma_sanitized_lines(x);
    let r = replace_seq(x, p, q);
    let lr = lines_of(r);
    let c = sanitized(x);
    assert(create_result(existing, text) == Ok::<Seq<char>, Seq<char>>(c));
    let lc = lines_of(c);
    assert(lc.last() == trim_end_seq(lr.last()));
    assert(trim_end_seq(strip_cr(dash + rt)) == trim_end_seq(dash + rt)) by {
        if (dash + rt).len() > 0 && (dash + rt).last() == '\r' {
            assert(is_ws('\r'));
        }
    }
    lemma_trim_end_concat(dash, rt);
    let line = dash + u;
    assert(lc.last() == line);
    lemma_trim_end_last(rt);
    assert(!is_ws(line.last()));
    assert(lead_ws(line) == 0) by {
        assert(!is_ws(line[0]));
    }
    lemma_trim_start_skip(line);
    assert(line.skip(0) =~= line);
    assert(trim_end_seq(line) == line);
    assert(trim_seq(line) == line);
    assert(line.skip(6) =~= u);
    assert(is_task_line(line));
}

proof fn lemma_replace_join(ls: Seq<Seq<char>>)
    requires
        ls.len() >= 1,
    ensures
        replace_seq(join_seq(ls, seq!['\n']), encoded_space(), seq![' ']) == join_seq(
            ls.map_values(|l: Seq<char>| replace_seq(l, encoded_space(), seq![' '])),
            seq!['\n'],
        ),
    decreases ls.len(),
{
    let p = encoded_space();
    let q = seq![' '];
    let nl = seq!['\n'];
    let f = |l: Seq<char>| replace_seq(l, encoded_space(), seq![' ']);
    if ls.len() == 1 {
        assert(ls.map_values(f) =~= seq![f(ls[0])]);
    } else {
        let init = ls.drop_last();
        lemma_replace_join(init);
        let a = join_seq(init, nl);
        let b = ls.last();
        let an = a + nl;
        assert(join_seq(ls, nl) == an + b);
        assert forall|i: int|
            0 <= i < an.len() < i + p.len() <= an.len() + b.len() implies #[trigger] (an + b).subrange(i, i + p.len()) != p by {
            let k = an.len() - 1 - i;
            assert((an + b).subrange(i, i + p.len())[k] == '\n');
        }
        lemma_replace_concat(an, b, p, q);
        assert forall|i: int|
            0 <= i < a.len() < i + p.len() <= a.len() + nl.len() implies #[trigger] (a + nl).subrange(i, i + p.len()) != p by {
            let k = a.len() - i;
            assert((a + nl).subrange(i, i + p.len())[k] == '\n');
        }
        lemma_replace_concat(a, nl, p, q);
        assert(replace_seq(nl, p, q) == nl);
        assert(ls.map_values(f).drop_last() =~= init.map_values(f));
        assert(ls.map_values(f).last() == f(b));
    }
}

proof fn lemma_lines_of_join(m: Seq<Seq<char>>)
    requires
        m.len() >= 1,
        forall|j: int, i: int| 0 <= j < m.len() && 0 <= i < m[j].len() ==> #[trigger] m[j][i] != '\n',
    ensures
        lines_of(join_seq(m, seq!['\n']) + seq!['\n']) == m.map_values(|l: Seq<char>| strip_cr(l)),
        m.last().len() > 0 ==> lines_of(join_seq(m, seq!['\n'])) == m.drop_last().map_values(
            |l: Seq<char>| strip_cr(l),
        ).push(m.last()),
        m.last().len() == 0 ==> lines_of(join_seq(m, seq!['\n'])) == m.drop_last().map_values(
            |l: Seq<char>| strip_cr(l),
        ),
{
    let j = join_seq(m, seq!['\n']);
    lemma_pieces_of_join(m, '\n');
    lemma_split_concat(j, Seq::<char>::empty(), '\n');
    assert(j + seq!['\n'] + Seq::<char>::empty() =~= j + seq!['\n']);
    assert(split_pieces(j + seq!['\n'], '\n') =~= m + seq![Seq::<char>::empty()]);
    assert((m + seq![Seq::<char>::empty()]).drop_last() =~= m);
}

proof fn lemma_trim_end_strip_cr(x: Seq<char>)
    ensures
        trim_end_seq(strip_cr(x)) == trim_end_seq(x),
{
    if x.len() > 0 && x.last() == '\r' {
        assert(is_ws('\r'));
    }
}

/// A toggled task line, decoded and trimmed, reads as the task with the other check
/// state and the decoded text.
proof fn lemma_toggled_line_reads(l: Seq<char>, src: Seq<char>, n: int)
    requires
        is_full_task(l),
        trim_end_seq(replace_seq(l.skip(lead_ws(l) as int + 6), encoded_space(), seq![' '])).len() > 0,
    ensures
        ({
            let k = lead_ws(l) as int;
            let u = trim_end_seq(replace_seq(l.skip(k + 6), encoded_space(), seq![' ']));
            let line = trim_end_seq(replace_seq(toggled_line(l), encoded_space(), seq![' ']));
            &&& line.len() > 0
            &&& task_from_line(line, src, n) is Some
            &&& task_from_line(line, src, n)->0.completed == !(l[k + 3] == 'x' || l[k + 3] == 'X')
            &&& task_from_line(line, src, n)->0.text == u
        }),
{
    let p = encoded_space();
    let q = seq![' '];
    let k = lead_ws(l) as int;
    law_toggle_line(l);
    lemma_lead_ws_bounds(l);
    let t = toggled_line(l);
    let pre = t.take(k + 6);
    let body = t.skip(k + 6);
    assert(body =~= l.skip(k + 6)) by {
        assert forall|i: int| 0 <= i < body.len() implies body[i] == l.skip(k + 6)[i] by {
            assert(body[i] == t[k + 6 + i]);
            assert(t[k + 6 + i] == l[k + 6 + i]);
        }
    }
    assert(t =~= pre + body);
    assert forall|i: int| 0 <= i < pre.len() implies pre[i] != p[0] by {
        if i < k {
            assert(pre[i] == t[i]);
            assert(is_ws(l[i]));
            assert(t[i] == l[i]);
        } else {
            assert(pre[i] == t[i]);
        }
    }
    assert forall|i: int|
        0 <= i < pre.len() < i + p.len() <= pre.len() + body.len() implies #[trigger] (pre + body).subrange(i, i + p.len()) != p by {
        assert((pre + body).subrange(i, i + p.len())[0] == pre[i]);
    }
    lemma_replace_concat(pre, body, p, q);
    lemma_replace_without_first(pre, p, q);
    let rb = replace_seq(body, p, q);
    let u = trim_end_seq(rb);
    lemma_trim_end_concat(pre, rb);
    let line = pre + u;
    // its indentation is the task's
    assert forall|j: int| 0 <= j < k implies is_ws(#[trigger] line[j]) by {
        assert(line[j] == l[j]);
    }
    assert(!is_ws(line[k])) by {
        assert(line[k] == l[k]);
        assert(is_bullet(l[k]));
    }
    lemma_lead_ws_at(line, k);
    lemma_trim_start_skip(line);
    let s = line.skip(k);
    lemma_trim_end_last(rb);
    assert(s.last() == u.last());
    assert(trim_end_seq(s) == s);
    assert(trim_seq(line) == s);
    assert(s.skip(6) =~= u);
    assert(s[0] == l[k] && s[1] == l[k + 1] && s[2] == l[k + 2] && s[4] == l[k + 4] && s[5] == l[k + 5]);
    assert(s[3] == t[k + 3]);
    assert(is_task_line(s));
}

proof fn lemma_tasks_of_lines_has(ls: Seq<Seq<char>>, src: Seq<char>, i: int)
    requires
        0 <= i < ls.len(),
        task_from_line(ls[i], src, i + 1) is Some,
    ensures
        tasks_of_lines(ls, src).contains(task_from_line(ls[i], src, i + 1)->0),
    decreases ls.len(),
{
    if i == ls.len() - 1 {
        let ts = tasks_of_lines(ls, src);
        assert(ts.last() == task_from_line(ls[i], src, i + 1)->0);
        assert(ts[ts.len() - 1] == ts.last());
    } else {
        lemma_tasks_of_lines_has(ls.drop_last(), src, i);
        let rest = tasks_of_lines(ls.drop_last(), src);
        let x = task_from_line(ls[i], src, i + 1)->0;
        let k = choose|k: int| 0 <= k < rest.len() && rest[k] == x;
        let ts = tasks_of_lines(ls, src);
        assert(ts[k] == x);
    }
}


proof fn lemma_pieces_last_nonempty(s: Seq<char>)
    requires
        s.len() > 0,
        s.last() != '\n',
    ensures
        split_pieces(s, '\n').last().len() > 0,
{
    lemma_pieces_nonempty(s.drop_last(), '\n');
}

proof fn lemma_replace_nonempty(s: Seq<char>)
    requires
        s.len() > 0,
    ensures
        replace_seq(s, encoded_space(), seq![' ']).len() > 0,
{
}

/// The lines of a sanitised text whose decoded text does not end in a line break: each
/// decoded line trimmed, except that a last line that trims to nothing is dropped.
proof fn lemma_sanitized_unterminated(x: Seq<char>, i: int)
    requires
        !has_suffix(replace_seq(x, encoded_space(), seq![' ']), seq!['\n']),
        0 <= i < lines_of(replace_seq(x, encoded_space(), seq![' '])).len(),
        i < lines_of(replace_seq(x, encoded_space(), seq![' '])).len() - 1 || trim_end_seq(
            lines_of(replace_seq(x, encoded_space(), seq![' ']))[i],
        ).len() > 0,
    ensures
        i < lines_of(sanitized(x)).len(),
        lines_of(sanitized(x))[i] == trim_end_seq(lines_of(replace_seq(x, encoded_space(), seq![' ']))[i]),
{
    let nl = seq!['\n'];
    let r = replace_seq(x, encoded_space(), seq![' ']);
    let pr = split_pieces(r, '\n');
    let lr = lines_of(r);
    let ll = lr.map_values(|l: Seq<char>| trim_end_seq(l));
    let c = sanitized(x);
    assert(c == join_seq(ll, nl));
    lemma_pieces_sep_free(r, '\n');
    lemma_pieces_nonempty(r, '\n');
    assert forall|j: int, y: int| 0 <= j < ll.len() && 0 <= y < ll[j].len() implies #[trigger] ll[j][y]
        != '\n' by {
        lemma_trim_end_prefix(lr[j]);
        assert(ll[j][y] == lr[j][y]);
        if j < pr.len() - 1 {
            assert(lr[j] == strip_cr(pr[j]));
        } else {
            assert(lr[j] == pr[j]);
        }
        assert(lr[j][y] == pr[j][y]);
    }
    lemma_lines_of_join(ll);
    lemma_trim_end_last(lr[i]);
    if i < ll.len() - 1 {
        assert(lines_of(c)[i] == strip_cr(ll[i]));
        if ll[i].len() > 0 {
            assert(is_ws('\r'));
        }
    } else {
        assert(ll.last().len() > 0);
        assert(lines_of(c)[i] == ll.last());
    }
}

/// The line at `i` of a file whose piece `i` was replaced by `e` and that was joined back
/// and sanitised: `e` decoded and trimmed, when that is not empty.
#[verifier::rlimit(60)]
proof fn lemma_rejoined_line(text: Seq<char>, i: int, e: Seq<char>)
    requires
        0 <= i < split_pieces(text, '\n').len(),
        split_pieces(text, '\n')[i].len() > 0,
        forall|x: int| 0 <= x < e.len() ==> e[x] != '\n',
        trim_end_seq(replace_seq(e, encoded_space(), seq![' '])).len() > 0,
    ensures
        i < lines_of(rejoined(split_pieces(text, '\n').update(i, e), text)).len(),
        lines_of(rejoined(split_pieces(text, '\n').update(i, e), text))[i] == trim_end_seq(
            replace_seq(e, encoded_space(), seq![' ']),
        ),
{
    let p = encoded_space();
    let q = seq![' '];
    let nl = seq!['\n'];
    let ls = split_pieces(text, '\n');
    let ls2 = ls.update(i, e);
    let f = |x: Seq<char>| replace_seq(x, encoded_space(), seq![' ']);
    let m = ls2.map_values(f);
    lemma_pieces_nonempty(text, '\n');
    lemma_pieces_sep_free(text, '\n');
    assert forall|j: int, x: int| 0 <= j < ls2.len() && 0 <= x < ls2[j].len() implies #[trigger] ls2[j][x]
        != '\n' by {
        if j != i {
            assert(ls[j][x] != '\n');
        }
    }
    assert forall|j: int, x: int| 0 <= j < m.len() && 0 <= x < m[j].len() implies #[trigger] m[j][x] != '\n' by {
        assert forall|y: int| 0 <= y < ls2[j].len() implies ls2[j][y] != '\n' by {}
        assert forall|y: int| 0 <= y < q.len() implies q[y] != '\n' by {}
        lemma_replace_keeps_out(ls2[j], p, q, '\n');
    }
    lemma_replace_join(ls2);
    let j2 = join_seq(ls2, nl);
    let x = if has_suffix(text, nl) { j2.push('\n') } else { j2 };
    let c = sanitized(x);
    assert(rejoined(ls2, text) == c);
    lemma_trim_end_strip_cr(m[i]);
    let line = trim_end_seq(m[i]);
    assert(m[i] == f(e));
    lemma_lines_of_join(m);
    let r = replace_seq(x, p, q);
    if has_suffix(text, nl) {
        assert(x =~= j2 + nl);
        assert forall|y: int|
            0 <= y < j2.len() < y + p.len() <= j2.len() + nl.len() implies #[trigger] (j2 + nl).subrange(y, y + p.len()) != p by {
            let z = j2.len() - y;
            assert((j2 + nl).subrange(y, y + p.len())[z] == '\n');
        }
        lemma_replace_concat(j2, nl, p, q);
        assert(replace_seq(nl, p, q) == nl);
        let jm = join_seq(m, nl);
        assert(r =~= jm + nl);
        assert(r.skip(r.len() - 1) =~= nl);
        lemma_sanitized_lines(x);
        let lr = lines_of(r);
        assert(lr == m.map_values(|l: Seq<char>| strip_cr(l)));
        assert(lines_of(c)[i] == trim_end_seq(lr[i]));
        assert(lines_of(c)[i] == line);
    } else {
        // without a final line break the last piece is not empty
        assert(ls.last().len() > 0) by {
            if text.len() == 0 {
                assert(ls == seq![Seq::<char>::empty()]);
            } else {
                assert(text.last() != '\n') by {
                    if text.last() == '\n' {
                        assert(text.skip(text.len() - 1) =~= nl);
                    }
                }
                lemma_pieces_last_nonempty(text);
            }
        }
        assert(m.last().len() > 0) by {
            if i == ls.len() - 1 {
                assert(m.last() == f(e));
                lemma_trim_end_prefix(f(e));
            } else {
                assert(ls2.last() == ls.last());
                assert(m.last() == f(ls.last()));
                lemma_replace_nonempty(ls.last());
            }
        }
        let jm = join_seq(m, nl);
        assert(r == jm);
        assert(jm.last() == m.last().last()) by {
            if m.len() > 1 {
                assert(jm == join_seq(m.drop_last(), nl) + nl + m.last());
            }
        }
        assert(!has_suffix(r, nl)) by {
            assert(m.last().last() == m[m.len() - 1][m.last().len() - 1]);
            if has_suffix(r, nl) {
                assert(r.skip(r.len() - 1)[0] == r.last());
            }
        }
        let lr = lines_of(r);
        assert(lr == m.drop_last().map_values(|l: Seq<char>| strip_cr(l)).push(m.last()));
        lemma_sanitized_unterminated(x, i);
        assert(lines_of(c)[i] == trim_end_seq(lr[i]));
        if i < m.len() - 1 {
            assert(lr[i] == strip_cr(m[i]));
        } else {
            assert(lr[i] == m[i]);
        }
        assert(lines_of(c)[i] == line);
    }
}

/// What toggling a task gives back when the file is read: the line keeps its number and
/// now reads as the task with the other check state (its text with encoded spaces
/// decoded), and the file's tasks list it. This holds when the task's text is not blank
/// once decoded.
pub proof fn law_toggle_reads_back(text: Seq<char>, n: i64, src: Seq<char>)
    requires
        toggle_result(text, n) is Ok,
        trim_end_seq(replace_seq(
            split_pieces(text, '\n')[line_index(n) as int].skip(lead_ws(split_pieces(text, '\n')[line_index(n) as int]) as int + 6),
            encoded_space(),
            seq![' '],
        )).len() > 0,
    ensures
        ({
            let c = toggle_result(text, n)->Ok_0;
            let i = line_index(n) as int;
            let l = split_pieces(text, '\n')[i];
            let k = lead_ws(l) as int;
            &&& i < lines_of(c).len()
            &&& task_from_line(lines_of(c)[i], src, i + 1) is Some
            &&& task_from_line(lines_of(c)[i], src, i + 1)->0.completed == !(l[k + 3] == 'x' || l[k + 3] == 'X')
            &&& task_from_line(lines_of(c)[i], src, i + 1)->0.text == trim_end_seq(replace_seq(l.skip(k + 6), encoded_space(), seq![' ']))
            &&& tasks_in(c, src).contains(task_from_line(lines_of(c)[i], src, i + 1)->0)
        }),
{
    let ls = split_pieces(text, '\n');
    let i = line_index(n) as int;
    let l = ls[i];
    let t = toggled_line(l);
    law_toggle_line(l);
    lemma_pieces_sep_free(text, '\n');
    assert forall|x: int| 0 <= x < t.len() implies t[x] != '\n' by {
        if x != lead_ws(l) as int + 3 {
            assert(t[x] == l[x]);
            assert(ls[i][x] != '\n');
        }
    }
    lemma_toggled_line_reads(l, src, i + 1);
    lemma_rejoined_line(text, i, t);
    let c = toggle_result(text, n)->Ok_0;
    assert(c == rejoined(ls.update(i, t), text));
    lemma_tasks_of_lines_has(lines_of(c), src, i);
}

/// An edited task line, decoded and trimmed, reads as the task with the same check state
/// and the new text decoded.
proof fn lemma_retexted_line_reads(l: Seq<char>, t: Seq<char>, src: Seq<char>, n: int)
    requires
        is_full_task(l),
        trim_end_seq(replace_seq(t, encoded_space(), seq![' '])).len() > 0,
    ensures
        ({
            let k = lead_ws(l) as int;
            let u = trim_end_seq(replace_seq(t, encoded_space(), seq![' ']));
            let line = trim_end_seq(replace_seq(retexted_line(l, t), encoded_space(), seq![' ']));
            &&& task_from_line(line, src, n) is Some
            &&& task_from_line(line, src, n)->0.completed == (l[k + 3] == 'x' || l[k + 3] == 'X')
            &&& task_from_line(line, src, n)->0.text == u
        }),
{
    let p = encoded_space();
    let q = seq![' '];
    let k = lead_ws(l) as int;
    lemma_lead_ws_bounds(l);
    let pre = l.take(k + 6);
    assert(retexted_line(l, t) == pre + t);
    assert forall|i: int| 0 <= i < pre.len() implies pre[i] != p[0] by {
        if i < k {
            assert(is_ws(l[i]));
        }
    }
    assert forall|i: int|
        0 <= i < pre.len() < i + p.len() <= pre.len() + t.len() implies #[trigger] (pre + t).subrange(i, i + p.len()) != p by {
        assert((pre + t).subrange(i, i + p.len())[0] == pre[i]);
    }
    lemma_replace_concat(pre, t, p, q);
    lemma_replace_without_first(pre, p, q);
    let rt = replace_seq(t, p, q);
    let u = trim_end_seq(rt);
    lemma_trim_end_concat(pre, rt);
    let line = pre + u;
    assert forall|j: int| 0 <= j < k implies is_ws(#[trigger] line[j]) by {
        assert(line[j] == l[j]);
    }
    assert(!is_ws(line[k])) by {
        assert(line[k] == l[k]);
        assert(is_bullet(l[k]));
    }
    lemma_lead_ws_at(line, k);
    lemma_trim_start_skip(line);
    let s = line.skip(k);
    lemma_trim_end_last(rt);
    assert(s.last() == u.last());
    assert(trim_end_seq(s) == s);
    assert(trim_seq(line) == s);
    assert(s.skip(6) =~= u);
    assert(s[0] == l[k] && s[1] == l[k + 1] && s[2] == l[k + 2] && s[3] == l[k + 3] && s[4] == l[k + 4] && s[5] == l[k + 5]);
    assert(is_task_line(s));
}

/// What editing a task's text gives back when the file is read: the line keeps its
/// number and its check state and reads with the new text (trimmed, encoded spaces
/// decoded), and the file's tasks list it. This holds when the new text has no line
/// break and is not blank once decoded.
pub proof fn law_update_reads_back(text: Seq<char>, n: i64, new_text: Seq<char>, src: Seq<char>)
    requires
        update_result(text, n, new_text) is Ok,
        forall|x: int| 0 <= x < trim_seq(new_text).len() ==> trim_seq(new_text)[x] != '\n',
        trim_end_seq(replace_seq(trim_seq(new_text), encoded_space(), seq![' '])).len() > 0,
    ensures
        ({
            let c = update_result(text, n, new_text)->Ok_0;
            let i = line_index(n) as int;
            let l = split_pieces(text, '\n')[i];
            let k = lead_ws(l) as int;
            &&& i < lines_of(c).len()
            &&& task_from_line(lines_of(c)[i], src, i + 1) is Some
            &&& task_from_line(lines_of(c)[i], src, i + 1)->0.completed == (l[k + 3] == 'x' || l[k + 3] == 'X')
            &&& task_from_line(lines_of(c)[i], src, i + 1)->0.text == trim_end_seq(replace_seq(trim_seq(new_text), encoded_space(), seq![' ']))
            &&& tasks_in(c, src).contains(task_from_line(lines_of(c)[i], src, i + 1)->0)
        }),
{
    let ls = split_pieces(text, '\n');
    let i = line_index(n) as int;
    let l = ls[i];
    let t = trim_seq(new_text);
    let e = retexted_line(l, t);
    lemma_pieces_sep_free(text, '\n');
    lemma_lead_ws_bounds(l);
    let k = lead_ws(l) as int;
    assert forall|x: int| 0 <= x < e.len() implies e[x] != '\n' by {
        if x < k + 6 {
            assert(e[x] == l[x]);
            assert(ls[i][x] != '\n');
        } else {
            assert(e[x] == t[x - k - 6]);
        }
    }
    lemma_retexted_line_reads(l, t, src, i + 1);
    lemma_rejoined_line(text, i, e);
    let c = update_result(text, n, new_text)->Ok_0;
    assert(c == rejoined(ls.update(i, e), text));
    lemma_tasks_of_lines_has(lines_of(c), src, i);
}

/// No encoded space occurs in `s`.
/// `s` holds no HTML-encoded space.
pub open spec fn no_encoded_space(s: Seq<char>) -> bool {
    forall|i: int| 0 <= i && i + 6 <= s.len() ==> #[trigger] s.subrange(i, i + 6) != encoded_space()
}

proof fn lemma_replace_copies_prefix(s: Seq<char>, k: int)
    requires
        0 <= k <= replace_seq(s, encoded_space(), seq![' ']).len(),
        forall|j: int| 0 <= j < k ==> replace_seq(s, encoded_space(), seq![' '])[j] != ' ',
    ensures
        k <= s.len(),
        replace_seq(s, encoded_space(), seq![' ']).take(k) == s.take(k),
    decreases s.len(),
{
    let p = encoded_space();
    let q = seq![' '];
    let r = replace_seq(s, p, q);
    if k == 0 {
        assert(r.take(0) =~= s.take(0));
    } else if s.len() < p.len() {
    } else if s.take(p.len() as int) == p {
        assert(r[0] == ' ');
    } else {
        let s2 = s.drop_first();
        let r2 = replace_seq(s2, p, q);
        assert(r == seq![s[0]] + r2);
        assert forall|j: int| 0 <= j < k - 1 implies r2[j] != ' ' by {
            assert(r2[j] == r[j + 1]);
        }
        lemma_replace_copies_prefix(s2, k - 1);
        assert(r.take(k) =~= seq![s[0]] + r2.take(k - 1));
        assert(s.take(k) =~= seq![s[0]] + s2.take(k - 1));
    }
}

proof fn lemma_replace_leaves_none(s: Seq<char>)
    ensures
        no_encoded_space(replace_seq(s, encoded_space(), seq![' '])),
    decreases s.len(),
{
    let p = encoded_space();
    let q = seq![' '];
    let r = replace_seq(s, p, q);
    if s.len() < p.len() {
    } else if s.take(p.len() as int) == p {
        let s2 = s.skip(p.len() as int);
        let r2 = replace_seq(s2, p, q);
        lemma_replace_leaves_none(s2);
        assert(r == q + r2);
        assert forall|i: int| 0 <= i && i + 6 <= r.len() implies #[trigger] r.subrange(i, i + 6) != p by {
            if i == 0 {
                assert(r.subrange(0, 6)[0] == ' ');
            } else {
                let j = i - 1;
                assert(r.subrange(i, i + 6) =~= r2.subrange(j, j + 6));
            }
        }
    } else {
        let s2 = s.drop_first();
        let r2 = replace_seq(s2, p, q);
        lemma_replace_leaves_none(s2);
        assert(r == seq![s[0]] + r2);
        assert forall|i: int| 0 <= i && i + 6 <= r.len() implies #[trigger] r.subrange(i, i + 6) != p by {
            if i == 0 {
                if r.subrange(0, 6) == p {
                    assert forall|j: int| 0 <= j < 5 implies r2[j] != ' ' by {
                        assert(r2[j] == r.subrange(0, 6)[j + 1]);
                    }
                    lemma_replace_copies_prefix(s2, 5);
                    assert(s.take(6) =~= seq![s[0]] + s2.take(5));
                    assert(r.subrange(0, 6) =~= seq![s[0]] + r2.take(5));
                }
            } else {
                let j = i - 1;
                assert(r.subrange(i, i + 6) =~= r2.subrange(j, j + 6));
            }
        }
    }
}

proof fn lemma_free_take(s: Seq<char>, k: int)
    requires
        no_encoded_space(s),
        0 <= k <= s.len(),
    ensures
        no_encoded_space(s.take(k)),
{
    assert forall|i: int| 0 <= i && i + 6 <= s.take(k).len() implies #[trigger] s.take(k).subrange(i, i + 6)
        != encoded_space() by {
        assert(s.take(k).subrange(i, i + 6) =~= s.subrange(i, i + 6));
    }
}

proof fn lemma_free_skip(s: Seq<char>, k: int)
    requires
        no_encoded_space(s),
        0 <= k <= s.len(),
    ensures
        no_encoded_space(s.skip(k)),
{
    assert forall|i: int| 0 <= i && i + 6 <= s.skip(k).len() implies #[trigger] s.skip(k).subrange(i, i + 6)
        != encoded_space() by {
        assert(s.skip(k).subrange(i, i + 6) =~= s.subrange(i + k, i + k + 6));
    }
}

proof fn lemma_last_piece_suffix(s: Seq<char>, sep: char)
    ensures
        split_pieces(s, sep).last().len() <= s.len(),
        split_pieces(s, sep).last() == s.skip(s.len() - split_pieces(s, sep).last().len()),
    decreases s.len(),
{
    lemma_pieces_nonempty(s, sep);
    if s.len() == 0 {
        assert(s.skip(0) =~= s);
    } else {
        let s2 = s.drop_last();
        lemma_last_piece_suffix(s2, sep);
        lemma_pieces_nonempty(s2, sep);
        let p = split_pieces(s2, sep);
        if s.last() == sep {
            assert(s.skip(s.len() as int) =~= Seq::<char>::empty());
        } else {
            let l2 = p.last();
            assert(split_pieces(s, sep).last() == l2.push(s.last()));
            assert(l2.push(s.last()) =~= s.skip(s.len() - (l2.len() + 1)));
        }
    }
}

proof fn lemma_pieces_free(s: Seq<char>, sep: char)
    requires
        no_encoded_space(s),
    ensures
        forall|j: int| 0 <= j < split_pieces(s, sep).len() ==> no_encoded_space(#[trigger] split_pieces(s, sep)[j]),
    decreases s.len(),
{
    if s.len() > 0 {
        let s2 = s.drop_last();
        lemma_free_take(s, s.len() - 1);
        assert(s.take(s.len() - 1) == s2);
        lemma_pieces_free(s2, sep);
        lemma_pieces_nonempty(s2, sep);
        lemma_pieces_nonempty(s, sep);
        let p = split_pieces(s2, sep);
        let ps = split_pieces(s, sep);
        lemma_last_piece_suffix(s, sep);
        lemma_free_skip(s, s.len() - ps.last().len());
        assert forall|j: int| 0 <= j < ps.len() implies no_encoded_space(#[trigger] ps[j]) by {
            if j == ps.len() - 1 {
                assert(ps[j] == ps.last());
            } else {
                assert(ps[j] == p[j]);
            }
        }
    }
}

proof fn lemma_concat_nl_free(a: Seq<char>, b: Seq<char>)
    requires
        no_encoded_space(a),
        no_encoded_space(b),
    ensures
        no_encoded_space(a + seq!['\n'] + b),
{
    let w = a + seq!['\n'] + b;
    let p = encoded_space();
    assert forall|i: int| 0 <= i && i + 6 <= w.len() implies #[trigger] w.subrange(i, i + 6) != p by {
        if i + 6 <= a.len() {
            assert(w.subrange(i, i + 6) =~= a.subrange(i, i + 6));
        } else if i > a.len() {
            let j = i - a.len() - 1;
            assert(w.subrange(i, i + 6) =~= b.subrange(j, j + 6));
        } else {
            let k = a.len() - i;
            assert(w.subrange(i, i + 6)[k] == '\n');
        }
    }
}

proof fn lemma_join_free(ls: Seq<Seq<char>>)
    requires
        forall|j: int| 0 <= j < ls.len() ==> no_encoded_space(#[trigger] ls[j]),
    ensures
        no_encoded_space(join_seq(ls, seq!['\n'])),
    decreases ls.len(),
{
    if ls.len() == 1 {
        assert(no_encoded_space(ls[0]));
    } else if ls.len() > 1 {
        let init = ls.drop_last();
        assert forall|j: int| 0 <= j < init.len() implies no_encoded_space(#[trigger] init[j]) by {
            assert(init[j] == ls[j]);
        }
        lemma_join_free(init);
        assert(no_encoded_space(ls[ls.len() - 1]));
        lemma_concat_nl_free(join_seq(init, seq!['\n']), ls.last());
    }
}

proof fn lemma_replace_free_id(s: Seq<char>)
    requires
        no_encoded_space(s),
    ensures
        replace_seq(s, encoded_space(), seq![' ']) == s,
    decreases s.len(),
{
    let p = encoded_space();
    if s.len() >= p.len() {
        let i0: int = 0;
        assert(s.take(6) =~= s.subrange(i0, i0 + 6));
        lemma_free_skip(s, 1);
        assert(s.skip(1) == s.drop_first());
        lemma_replace_free_id(s.drop_first());
        assert(seq![s[0]] + s.drop_first() =~= s);
    }
}

proof fn lemma_trim_end_idempotent(x: Seq<char>)
    ensures
        trim_end_seq(trim_end_seq(x)) == trim_end_seq(x),
{
    lemma_trim_end_last(x);
}

/// Sanitising a text a second time changes nothing: what the editing functions write is
/// already in its sanitised form.
#[verifier::rlimit(60)]
pub proof fn law_sanitize_idempotent(x: Seq<char>)
    ensures
        sanitized(sanitized(x)) == sanitized(x),
{
    let p = encoded_space();
    let q = seq![' '];
    let nl = seq!['\n'];
    let r = replace_seq(x, p, q);
    let pr = split_pieces(r, '\n');
    let lr = lines_of(r);
    let ll = lr.map_values(|l: Seq<char>| trim_end_seq(l));
    let c = sanitized(x);
    lemma_replace_leaves_none(x);
    lemma_pieces_free(r, '\n');
    lemma_pieces_sep_free(r, '\n');
    lemma_pieces_nonempty(r, '\n');
    // each sanitised line is free of encoded spaces and line breaks, and trimmed
    assert forall|j: int| 0 <= j < ll.len() implies no_encoded_space(#[trigger] ll[j]) by {
        lemma_trim_end_prefix(lr[j]);
        if j < pr.len() - 1 {
            assert(lr[j] == strip_cr(pr[j]));
            assert(no_encoded_space(pr[j]));
            if pr[j].len() > 0 && pr[j].last() == '\r' {
                lemma_free_take(pr[j], pr[j].len() - 1);
                assert(pr[j].take(pr[j].len() - 1) == pr[j].drop_last());
            }
        } else {
            assert(lr[j] == pr[j]);
        }
        lemma_free_take(lr[j], trim_end_seq(lr[j]).len() as int);
    }
    assert forall|j: int, y: int| 0 <= j < ll.len() && 0 <= y < ll[j].len() implies #[trigger] ll[j][y]
        != '\n' by {
        lemma_trim_end_prefix(lr[j]);
        assert(ll[j][y] == lr[j][y]);
        if j < pr.len() - 1 {
            assert(lr[j] == strip_cr(pr[j]));
        } else {
            assert(lr[j] == pr[j]);
        }
        assert(lr[j][y] == pr[j][y]);
    }
    assert forall|j: int| 0 <= j < ll.len() implies #[trigger] trim_end_seq(ll[j]) == ll[j] by {
        lemma_trim_end_idempotent(lr[j]);
    }
    assert forall|j: int| 0 <= j < ll.len() implies #[trigger] strip_cr(ll[j]) == ll[j] by {
        lemma_trim_end_last(lr[j]);
        if ll[j].len() > 0 {
            assert(is_ws('\r'));
        }
    }
    lemma_join_free(ll);
    let jl = join_seq(ll, nl);
    if has_suffix(r, nl) {
        lemma_sanitized_lines(x);
        assert(c == jl.push('\n'));
        lemma_concat_nl_free(jl, Seq::<char>::empty());
        assert(jl + nl + Seq::<char>::empty() =~= c);
        lemma_replace_free_id(c);
        assert(has_suffix(c, nl)) by {
            assert(c.skip(c.len() - 1) =~= nl);
        }
        assert(lines_of(c) == ll);
        assert(lines_of(c).map_values(|l: Seq<char>| trim_end_seq(l)) =~= ll);
    } else {
        assert(c == jl);
        lemma_replace_free_id(c);
        if ll.len() == 0 {
            assert(c == Seq::<char>::empty());
            assert(split_pieces(c, '\n') == seq![Seq::<char>::empty()]);
            assert(lines_of(c) =~= Seq::<Seq<char>>::empty());
            assert(lines_of(c).map_values(|l: Seq<char>| trim_end_seq(l)) =~= Seq::<Seq<char>>::empty());
        } else {
            lemma_lines_of_join(ll);
            if ll.last().len() > 0 {
                assert(lines_of(c) =~= ll);
                assert(lines_of(c).map_values(|l: Seq<char>| trim_end_seq(l)) =~= ll);
                assert(c.last() == ll.last().last()) by {
                    if ll.len() > 1 {
                        assert(c == join_seq(ll.drop_last(), nl) + nl + ll.last());
                    }
                }
                assert(!has_suffix(c, nl)) by {
                    assert(ll.last().last() == ll[ll.len() - 1][ll.last().len() - 1]);
                    if has_suffix(c, nl) {
                        assert(c.skip(c.len() - 1)[0] == c.last());
                    }
                }
            } else {
                let l2 = ll.drop_last();
                assert(lines_of(c) =~= l2);
                assert(lines_of(c).map_values(|l: Seq<char>| trim_end_seq(l)) =~= l2);
                if ll.len() == 1 {
                    assert(c == ll[0]);
                    assert(c =~= Seq::<char>::empty());
                    assert(l2 =~= Seq::<Seq<char>>::empty());
                } else {
                    assert(c == join_seq(l2, nl) + nl + ll.last());
                    assert(c =~= join_seq(l2, nl).push('\n'));
                    assert(has_suffix(c, nl)) by {
                        assert(c.skip(c.len() - 1) =~= nl);
                    }
                }
            }
        }
    }
}

proof fn lemma_replace_keeps_final_nl(s: Seq<char>)
    requires
        s.len() > 0,
        s.last() == '\n',
    ensures
        replace_seq(s, encoded_space(), seq![' ']).len() > 0,
        replace_seq(s, encoded_space(), seq![' ']).last() == '\n',
    decreases s.len(),
{
    let p = encoded_space();
    let q = seq![' '];
    if s.len() < p.len() {
    } else if s.take(p.len() as int) == p {
        let s2 = s.skip(p.len() as int);
        if s.len() == p.len() {
            assert(s.last() == s.take(6)[5]);
        } else {
            assert(s2.last() == s.last());
            lemma_replace_keeps_final_nl(s2);
        }
    } else {
        let s2 = s.drop_first();
        assert(s2.last() == s.last());
        lemma_replace_keeps_final_nl(s2);
    }
}

/// What `sanitize_content` returns holds no encoded space, none of its lines (split on
/// `'\n'`) ends in whitespace, and it ends with a line break whenever the text did.
#[verifier::rlimit(40)]
pub proof fn law_sanitized_shape(x: Seq<char>)
    ensures
        no_encoded_space(sanitized(x)),
        forall|j: int|
            0 <= j < split_pieces(sanitized(x), '\n').len() && split_pieces(sanitized(x), '\n')[j].len() > 0
                ==> !is_ws(#[trigger] split_pieces(sanitized(x), '\n')[j].last()),
        has_suffix(x, seq!['\n']) ==> has_suffix(sanitized(x), seq!['\n']),
{
    let p = encoded_space();
    let q = seq![' '];
    let nl = seq!['\n'];
    let r = replace_seq(x, p, q);
    let pr = split_pieces(r, '\n');
    let lr = lines_of(r);
    let ll = lr.map_values(|l: Seq<char>| trim_end_seq(l));
    let c = sanitized(x);
    lemma_replace_leaves_none(x);
    lemma_pieces_free(r, '\n');
    lemma_pieces_sep_free(r, '\n');
    lemma_pieces_nonempty(r, '\n');
    assert forall|j: int| 0 <= j < ll.len() implies no_encoded_space(#[trigger] ll[j]) by {
        lemma_trim_end_prefix(lr[j]);
        if j < pr.len() - 1 {
            assert(lr[j] == strip_cr(pr[j]));
            assert(no_encoded_space(pr[j]));
            if pr[j].len() > 0 && pr[j].last() == '\r' {
                lemma_free_take(pr[j], pr[j].len() - 1);
                assert(pr[j].take(pr[j].len() - 1) == pr[j].drop_last());
            }
        } else {
            assert(lr[j] == pr[j]);
        }
        lemma_free_take(lr[j], trim_end_seq(lr[j]).len() as int);
    }
    assert forall|j: int, y: int| 0 <= j < ll.len() && 0 <= y < ll[j].len() implies #[trigger] ll[j][y]
        != '\n' by {
        lemma_trim_end_prefix(lr[j]);
        assert(ll[j][y] == lr[j][y]);
        if j < pr.len() - 1 {
            assert(lr[j] == strip_cr(pr[j]));
        } else {
            assert(lr[j] == pr[j]);
        }
        assert(lr[j][y] == pr[j][y]);
    }
    assert forall|j: int| 0 <= j < ll.len() && ll[j].len() > 0 implies !is_ws(#[trigger] ll[j].last()) by {
        lemma_trim_end_last(lr[j]);
    }
    lemma_join_free(ll);
    let jl = join_seq(ll, nl);
    if has_suffix(x, nl) {
        assert(x.last() == x.skip(x.len() - 1)[0]);
        lemma_replace_keeps_final_nl(x);
        assert(has_suffix(r, nl)) by {
            assert(r.skip(r.len() - 1) =~= nl);
        }
    }
    if has_suffix(r, nl) {
        assert(c == jl.push('\n'));
        lemma_concat_nl_free(jl, Seq::<char>::empty());
        assert(jl + nl + Seq::<char>::empty() =~= c);
        assert(has_suffix(c, nl)) by {
            assert(c.skip(c.len() - 1) =~= nl);
        }
        let le = ll.push(Seq::<char>::empty());
        if ll.len() == 0 {
            assert(c =~= nl);
            assert(split_pieces(nl, '\n') =~= seq![Seq::<char>::empty(), Seq::<char>::empty()]) by {
                assert(nl.last() == '\n');
                assert(nl.drop_last() =~= Seq::<char>::empty());
                assert(split_pieces(Seq::<char>::empty(), '\n') == seq![Seq::<char>::empty()]);
                assert(split_pieces(nl, '\n') == split_pieces(nl.drop_last(), '\n').push(Seq::<char>::empty()));
            }
        } else {
            assert(le.drop_last() =~= ll);
            assert(join_seq(le, nl) =~= c);
            assert forall|j: int, y: int| 0 <= j < le.len() && 0 <= y < le[j].len() implies #[trigger] le[j][y]
                != '\n' by {
                assert(le[j] == ll[j]);
            }
            lemma_pieces_of_join(le, '\n');
            assert forall|j: int| 0 <= j < le.len() && le[j].len() > 0 implies !is_ws(#[trigger] le[j].last()) by {
                assert(le[j] == ll[j]);
            }
        }
    } else {
        assert(c == jl);
        if ll.len() == 0 {
            assert(c == Seq::<char>::empty());
            assert(split_pieces(c, '\n') == seq![Seq::<char>::empty()]);
        } else {
            lemma_pieces_of_join(ll, '\n');
        }
    }
}

proof fn lemma_join_pieces(s: Seq<char>, sep: char)
    ensures
        join_seq(split_pieces(s, sep), seq![sep]) == s,
    decreases s.len(),
{
    if s.len() == 0 {
        assert(split_pieces(s, sep) == seq![Seq::<char>::empty()]);
    } else {
        let sl = s.drop_last();
        let p = split_pieces(sl, sep);
        lemma_join_pieces(sl, sep);
        lemma_pieces_nonempty(sl, sep);
        if s.last() == sep {
            let q = p.push(Seq::<char>::empty());
            assert(q.drop_last() =~= p);
            assert(join_seq(q, seq![sep]) == join_seq(p, seq![sep]) + seq![sep] + Seq::<char>::empty());
            assert(sl + seq![sep] + Seq::<char>::empty() =~= s);
        } else {
            let q = p.update(p.len() - 1, p.last().push(s.last()));
            if p.len() == 1 {
                assert(join_seq(q, seq![sep]) == q[0]);
                assert(join_seq(p, seq![sep]) == p[0]);
                assert(q[0] =~= sl.push(s.last()));
            } else {
                assert(q.drop_last() =~= p.drop_last());
                assert(join_seq(q, seq![sep]) == join_seq(p.drop_last(), seq![sep]) + seq![sep] + q.last());
                assert(join_seq(p, seq![sep]) == join_seq(p.drop_last(), seq![sep]) + seq![sep] + p.last());
                assert(join_seq(q, seq![sep]) =~= join_seq(p, seq![sep]).push(s.last()));
            }
            assert(sl.push(s.last()) =~= s);
        }
    }
}

/// A line decoded and with its trailing whitespace trimmed, as sanitising leaves it.
pub open spec fn sanitized_line(x: Seq<char>) -> Seq<char> {
    trim_end_seq(replace_seq(x, encoded_space(), seq![' ']))
}

/// Sanitising lines joined by line breaks, the last of which does not sanitise to
/// nothing, sanitises each line.
proof fn lemma_sanitized_join(ls: Seq<Seq<char>>)
    requires
        ls.len() >= 1,
        forall|j: int, x: int| 0 <= j < ls.len() && 0 <= x < ls[j].len() ==> #[trigger] ls[j][x] != '\n',
        sanitized_line(ls.last()).len() > 0,
    ensures
        sanitized(join_seq(ls, seq!['\n'])) == join_seq(ls.map_values(|l: Seq<char>| sanitized_line(l)), seq!['\n']),
{
    let p = encoded_space();
    let q = seq![' '];
    let nl = seq!['\n'];
    let f = |x: Seq<char>| replace_seq(x, encoded_space(), seq![' ']);
    let m = ls.map_values(f);
    assert forall|j: int, x: int| 0 <= j < m.len() && 0 <= x < m[j].len() implies #[trigger] m[j][x] != '\n' by {
        assert forall|y: int| 0 <= y < ls[j].len() implies ls[j][y] != '\n' by {}
        assert forall|y: int| 0 <= y < q.len() implies q[y] != '\n' by {}
        lemma_replace_keeps_out(ls[j], p, q, '\n');
    }
    lemma_replace_join(ls);
    let r = replace_seq(join_seq(ls, nl), p, q);
    assert(r == join_seq(m, nl));
    assert(m.last() == f(ls.last()));
    lemma_trim_end_prefix(m.last());
    assert(m.last().len() > 0);
    lemma_lines_of_join(m);
    let lr = lines_of(r);
    assert(lr == m.drop_last().map_values(|l: Seq<char>| strip_cr(l)).push(m.last()));
    assert(!has_suffix(r, nl)) by {
        if has_suffix(r, nl) {
            assert(r.skip(r.len() - 1)[0] == r.last());
            if m.len() > 1 {
                assert(r == join_seq(m.drop_last(), nl) + nl + m.last());
            }
            assert(r.last() == m.last().last());
            assert(m.last()[m.last().len() - 1] != '\n');
        }
    }
    let tl = lr.map_values(|l: Seq<char>| trim_end_seq(l));
    let sl = ls.map_values(|l: Seq<char>| sanitized_line(l));
    assert forall|j: int| 0 <= j < tl.len() implies #[trigger] tl[j] == sl[j] by {
        if j < m.len() - 1 {
            assert(lr[j] == strip_cr(m[j]));
            lemma_trim_end_strip_cr(m[j]);
        }
    }
    assert(tl =~= sl);
}

/// A task line with its marker toggled and then sanitised: the same prefix with the
/// marker flipped, followed by the sanitised text.
proof fn lemma_sanitized_task_line(l: Seq<char>)
    requires
        is_full_task(l),
        sanitized_line(l.skip(lead_ws(l) as int + 6)).len() > 0,
    ensures
        sanitized_line(l) == l.take(lead_ws(l) as int + 6) + sanitized_line(l.skip(lead_ws(l) as int + 6)),
{
    let p = encoded_space();
    let q = seq![' '];
    let k = lead_ws(l) as int;
    lemma_lead_ws_bounds(l);
    let pre = l.take(k + 6);
    let t = l.skip(k + 6);
    assert(l =~= pre + t);
    assert forall|i: int| 0 <= i < pre.len() implies pre[i] != p[0] by {
        if i < k {
            assert(is_ws(l[i]));
        }
    }
    assert forall|i: int|
        0 <= i < pre.len() < i + p.len() <= pre.len() + t.len() implies #[trigger] (pre + t).subrange(i, i + p.len()) != p by {
        assert((pre + t).subrange(i, i + p.len())[0] == pre[i]);
    }
    lemma_replace_concat(pre, t, p, q);
    lemma_replace_without_first(pre, p, q);
    lemma_trim_end_concat(pre, replace_seq(t, p, q));
}

/// Toggling a task line whose marker is ` ` or `x` and whose text does not sanitise to
/// nothing, sanitising it, toggling it again and sanitising gives the sanitised line.
proof fn lemma_toggle_sanitized_twice(l: Seq<char>)
    requires
        is_full_task(l),
        l[lead_ws(l) as int + 3] != 'X',
        sanitized_line(l.skip(lead_ws(l) as int + 6)).len() > 0,
    ensures
        is_full_task(sanitized_line(toggled_line(l))),
        sanitized_line(toggled_line(l)).skip(lead_ws(l) as int + 6) == sanitized_line(l.skip(lead_ws(l) as int + 6)),
        lead_ws(sanitized_line(toggled_line(l))) == lead_ws(l),
        toggled_line(sanitized_line(toggled_line(l))) == sanitized_line(l),
{
    let k = lead_ws(l) as int;
    let t = toggled_line(l);
    law_toggle_line(l);
    lemma_lead_ws_bounds(l);
    assert(t.skip(k + 6) =~= l.skip(k + 6));
    lemma_sanitized_task_line(l);
    lemma_sanitized_task_line(t);
    let u = sanitized_line(l.skip(k + 6));
    let st = t.take(k + 6) + u;
    assert(sanitized_line(t) == st);
    assert forall|j: int| 0 <= j < k implies is_ws(#[trigger] st[j]) by {
        assert(st[j] == l[j]);
    }
    assert(!is_ws(st[k])) by {
        assert(st[k] == l[k]);
        assert(is_bullet(l[k]));
    }
    lemma_lead_ws_at(st, k);
    assert(st[k + 1] == l[k + 1] && st[k + 2] == l[k + 2] && st[k + 4] == l[k + 4] && st[k + 5] == l[k + 5]);
    assert(st[k + 3] == t[k + 3]);
    assert(is_full_task(st));
    assert(st.skip(k + 6) =~= u);
    let tt = toggled_line(st);
    assert(tt =~= l.take(k + 6) + u) by {
        assert(tt.len() == l.take(k + 6).len() + u.len());
        assert forall|j: int| 0 <= j < tt.len() implies tt[j] == (l.take(k + 6) + u)[j] by {
            if j < k + 3 {
                assert(tt[j] == st[j]);
                assert(st[j] == t[j]);
            } else if j == k + 3 {
            } else if j < k + 6 {
                assert(tt[j] == st[j]);
                assert(st[j] == t[j]);
            } else {
                assert(tt[j] == st[j]);
            }
        }
    }
}

/// Toggling a task twice gives back the sanitised file: for a file that does not end in
/// a line break nor in a line that sanitises to nothing, a task marked ` ` or `x`, and a
/// task text that does not sanitise to nothing.
#[verifier::rlimit(40)]
pub proof fn law_toggle_twice(text: Seq<char>, n: i64)
    requires
        toggle_result(text, n) is Ok,
        !has_suffix(text, seq!['\n']),
        sanitized_line(split_pieces(text, '\n').last()).len() > 0,
        ({
            let l = split_pieces(text, '\n')[line_index(n) as int];
            &&& l[lead_ws(l) as int + 3] != 'X'
            &&& sanitized_line(l.skip(lead_ws(l) as int + 6)).len() > 0
        }),
    ensures
        toggle_result(toggle_result(text, n)->Ok_0, n) == Ok::<Seq<char>, Seq<char>>(sanitized(text)),
{
    let nl = seq!['\n'];
    let ls = split_pieces(text, '\n');
    let i = line_index(n) as int;
    let l = ls[i];
    let k = lead_ws(l) as int;
    let t = toggled_line(l);
    let ls1 = ls.update(i, t);
    let sf = |x: Seq<char>| sanitized_line(x);
    lemma_pieces_nonempty(text, '\n');
    lemma_pieces_sep_free(text, '\n');
    law_toggle_line(l);
    lemma_toggle_sanitized_twice(l);
    assert forall|x: int| 0 <= x < t.len() implies t[x] != '\n' by {
        if x != k + 3 {
            assert(t[x] == l[x]);
            assert(ls[i][x] != '\n');
        }
    }
    assert forall|j: int, x: int| 0 <= j < ls1.len() && 0 <= x < ls1[j].len() implies #[trigger] ls1[j][x] != '\n' by {
        if j != i {
            assert(ls[j][x] != '\n');
        }
    }
    // the last line of the toggled file still sanitises to something
    assert(sanitized_line(ls1.last()).len() > 0) by {
        if i == ls.len() - 1 {
            assert(lead_ws(t) == k);
            assert(t.skip(k + 6) =~= l.skip(k + 6));
            lemma_sanitized_task_line(t);
        }
    }
    // the first toggle
    let c1 = toggle_result(text, n)->Ok_0;
    assert(c1 == rejoined(ls1, text));
    lemma_sanitized_join(ls1);
    let p1 = ls1.map_values(sf);
    assert(c1 == join_seq(p1, nl));
    // its lines are the sanitised lines
    assert forall|j: int, x: int| 0 <= j < p1.len() && 0 <= x < p1[j].len() implies #[trigger] p1[j][x] != '\n' by {
        let r = replace_seq(ls1[j], encoded_space(), seq![' ']);
        assert forall|y: int| 0 <= y < ls1[j].len() implies ls1[j][y] != '\n' by {}
        assert forall|y: int| 0 <= y < seq![' '].len() implies seq![' '][y] != '\n' by {}
        lemma_replace_keeps_out(ls1[j], encoded_space(), seq![' '], '\n');
        lemma_trim_end_prefix(r);
        assert(p1[j][x] == r[x]);
    }
    lemma_pieces_of_join(p1, '\n');
    assert(split_pieces(c1, '\n') == p1);
    assert(p1[i] == sanitized_line(t));
    assert(!has_suffix(c1, nl)) by {
        if has_suffix(c1, nl) {
            assert(c1.skip(c1.len() - 1)[0] == c1.last());
            if p1.len() > 1 {
                assert(c1 == join_seq(p1.drop_last(), nl) + nl + p1.last());
            }
            assert(p1.last() == sf(ls1.last()));
            assert(c1.last() == p1.last()[p1.last().len() - 1]);
        }
    }
    // the second toggle
    let st = sanitized_line(t);
    let p2 = p1.update(i, toggled_line(st));
    let ls0 = ls.map_values(sf);
    assert(p2 =~= ls0);
    assert(toggle_result(c1, n) == Ok::<Seq<char>, Seq<char>>(rejoined(p2, c1)));
    assert(rejoined(p2, c1) == sanitized(join_seq(ls0, nl)));
    // the sanitised file is the file of the sanitised lines
    lemma_join_pieces(text, '\n');
    lemma_sanitized_join(ls);
    assert(sanitized(text) == join_seq(ls0, nl));
    law_sanitize_idempotent(text);
}

proof fn lemma_items_all_strings(v: Seq<Option<String>>, ps: Seq<Seq<char>>)
    requires
        v.map_values(|x: Option<String>| opt_str(x)) == ps.map_values(|p: Seq<char>| Some(p)),
    ensures
        string_items_spec(v) == ps,
    decreases v.len(),
{
    let f = |x: Option<String>| opt_str(x);
    let g = |p: Seq<char>| Some(p);
    assert(v.map_values(f).len() == ps.map_values(g).len());
    if v.len() > 0 {
        let v2 = v.drop_last();
        let p2 = ps.drop_last();
        assert(v2.map_values(f) =~= v.map_values(f).drop_last());
        assert(p2.map_values(g) =~= ps.map_values(g).drop_last());
        lemma_items_all_strings(v2, p2);
        assert(v.map_values(f)[v.len() - 1] == opt_str(v.last()));
        assert(ps.map_values(g)[ps.len() - 1] == Some(ps.last()));
        assert(ps =~= p2.push(ps.last()));
    } else {
        assert(ps.len() == 0);
        assert(ps =~= Seq::<Seq<char>>::empty());
    }
}

/// An event written as its `events.yaml` entry reads back as the same event, given that
/// its metadata value reads back as its metadata.
pub proof fn law_event_entry_reads_back(e: EventView, md_value: YamlValue, v: YamlValue, f: EventFields, md: EventMetadata)
    requires
        is_entry_of(v, e, md_value),
        fields_read(f, v, Some(md)),
        md@ == e.metadata,
    ensures
        event_of_fields(f) == Some(e),
{
    lemma_entry_reads_as(v, e, md_value);
    let ps = f.participants->0;
    assert(opt_items(f.participants) == Some(e.participants.map_values(|p: Seq<char>| Some(p))));
    lemma_items_all_strings(ps@, e.participants);
    let ev = event_of_fields(f)->0;
    assert(ev.participants == e.participants);
    assert(ev == e);
}

/// Pages follow one another: the rows from an offset, then the rows from the offset after
/// them, are the rows from the first offset, for counts that fit.
pub proof fn law_consecutive_windows<T>(s: Seq<T>, offset: i64, n: int, m: int)
    requires
        0 <= offset,
        0 <= n,
        0 <= m,
        offset + n <= i64::MAX,
    ensures
        window(s, offset, n) + window(s, (offset + n) as i64, m) == window(s, offset, n + m),
{
    let a = offset as int;
    if a >= s.len() {
    } else if a + n >= s.len() {
        assert(window(s, (offset + n) as i64, m) =~= Seq::<T>::empty());
        assert(window(s, offset, n) + Seq::<T>::empty() =~= s.skip(a));
    } else if a + n + m >= s.len() {
        assert(s.subrange(a, a + n) + s.skip(a + n) =~= s.skip(a));
    } else {
        assert(s.subrange(a, a + n) + s.subrange(a + n, a + n + m) =~= s.subrange(a, a + n + m));
    }
}

} // verus!
