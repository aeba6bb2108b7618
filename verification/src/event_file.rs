//! Editing `events.yaml`: adding, replacing and removing an event's entry in the parsed
//! document, which is then printed back.

use vstd::prelude::*;
use crate::events::{already_exists_msg, event_to_yaml, is_entry_of, key_text, not_found_msg};
use crate::models::{opt_str, EventEntity};
use crate::storage::{printed_or_empty, string_eq};
use crate::text::{chars_of, string_of};
use crate::yaml::{
    as_text, get_key, is_str, key_value, parse_yaml, parse_yaml_text, print_yaml, untag, untagged,
    yaml_document, yaml_parsed, yaml_printed, YamlValue,
};

verus! {

/// An edit of the events list: add an entry at the end, replace the entry at a position,
/// or remove every entry with an id.
pub enum EventsEdit {
    Push(YamlValue),
    Replace(usize, YamlValue),
    Drop(String),
}

/// The entries of `xs` whose id is not `id`, in order.
pub open spec fn without_id(xs: Seq<YamlValue>, id: Seq<char>) -> Seq<YamlValue>
    decreases xs.len(),
{
    if xs.len() == 0 {
        Seq::empty()
    } else {
        let rest = without_id(xs.drop_last(), id);
        if key_text(xs.last(), "id"@) == Some(id) {
            rest
        } else {
            rest.push(xs.last())
        }
    }
}

/// The list after the edit.
pub open spec fn edited(xs: Seq<YamlValue>, e: EventsEdit) -> Seq<YamlValue> {
    match e {
        EventsEdit::Push(x) => xs.push(x),
        EventsEdit::Replace(p, x) => xs.update(p as int, x),
        EventsEdit::Drop(id) => without_id(xs, id@),
    }
}

pub open spec fn edit_fits(xs: Seq<YamlValue>, e: EventsEdit) -> bool {
    match e {
        EventsEdit::Replace(p, _) => p < xs.len(),
        _ => true,
    }
}

/// The list under the `events` key of a document (tags taken off), if it is one.
pub open spec fn events_list(d: YamlValue) -> Option<Seq<YamlValue>> {
    match key_value(d, "events"@) {
        Some(v) => match untagged(v) {
            YamlValue::List(xs) => Some(xs@),
            _ => None,
        },
        None => None,
    }
}

/// The entry at `j` is the first whose key is the string `key`.
pub open spec fn first_key_at(m: Seq<(YamlValue, YamlValue)>, key: Seq<char>, j: int) -> bool {
    &&& 0 <= j < m.len()
    &&& m[j].0 matches YamlValue::Str(k) && k@ == key
    &&& forall|i: int| 0 <= i < j ==> !(#[trigger] m[i].0 matches YamlValue::Str(k) && k@ == key)
}

/// `after` is the list value `before` (its tags kept) holding `ys`.
pub open spec fn with_list(before: YamlValue, after: YamlValue, ys: Seq<YamlValue>) -> bool
    decreases before,
{
    match before {
        YamlValue::Tagged(t, b) => after is Tagged && after->Tagged_0 == t && with_list(*b, *after->Tagged_1, ys),
        YamlValue::List(_) => after is List && after->List_0@ == ys,
        _ => false,
    }
}

/// `after` is the document `before` (its tags kept) with the list under its `events` key
/// holding `ys`, everything else unchanged.
pub open spec fn with_events(before: YamlValue, after: YamlValue, ys: Seq<YamlValue>) -> bool
    decreases before,
{
    match before {
        YamlValue::Tagged(t, b) => after is Tagged && after->Tagged_0 == t && with_events(*b, *after->Tagged_1, ys),
        YamlValue::Mapping(m) => {
            &&& after is Mapping
            &&& after->Mapping_0@.len() == m@.len()
            &&& exists|j: int| {
                &&& first_key_at(m@, "events"@, j)
                &&& forall|k: int| 0 <= k < m@.len() && k != j ==> #[trigger] after->Mapping_0@[k] == m@[k]
                &&& after->Mapping_0@[j].0 == m@[j].0
                &&& with_list(m@[j].1, after->Mapping_0@[j].1, ys)
            }
        },
        _ => false,
    }
}

/// `after` is the mapping `before` (its tags kept) with the entry `events: ys` added at
/// the end.
pub open spec fn with_events_added(before: YamlValue, after: YamlValue, ys: Seq<YamlValue>) -> bool
    decreases before,
{
    match before {
        YamlValue::Tagged(t, b) => after is Tagged && after->Tagged_0 == t && with_events_added(
            *b,
            *after->Tagged_1,
            ys,
        ),
        YamlValue::Mapping(m) => {
            &&& after is Mapping
            &&& after->Mapping_0@.len() == m@.len() + 1
            &&& forall|k: int| 0 <= k < m@.len() ==> #[trigger] after->Mapping_0@[k] == m@[k]
            &&& is_str(after->Mapping_0@[m@.len() as int].0, "events"@)
            &&& after->Mapping_0@[m@.len() as int].1 is List
            &&& after->Mapping_0@[m@.len() as int].1->List_0@ == ys
        },
        _ => false,
    }
}

fn apply_edit(xs: Vec<YamlValue>, e: EventsEdit) -> (r: Vec<YamlValue>)
    requires
        edit_fits(xs@, e),
    ensures
        r@ == edited(xs@, e),
{
    let ghost orig = xs@;
    let ghost ev = e;
    let mut xs = xs;
    match e {
        EventsEdit::Push(x) => {
            xs.push(x);
            xs
        },
        EventsEdit::Replace(p, x) => {
            xs.set(p, x);
            xs
        },
        EventsEdit::Drop(id) => {
            let mut out: Vec<YamlValue> = Vec::new();
            let ghost mut taken: int = 0;
            assert(orig.take(0) =~= Seq::<YamlValue>::empty());
            assert(orig.skip(0) =~= orig);
            while xs.len() > 0
                invariant
                    0 <= taken <= orig.len(),
                    taken + xs@.len() == orig.len(),
                    xs@ == orig.skip(taken),
                    out@ == without_id(orig.take(taken), id@),
                decreases xs.len(),
            {
                let ghost before = xs@;
                let x = xs.remove(0);
                assert(orig[taken] == x) by {
                    assert(orig.skip(taken)[0] == orig[taken]);
                }
                assert(orig.take(taken + 1).drop_last() =~= orig.take(taken));
                assert(orig.take(taken + 1).last() == x);
                let same = match get_key(&x, "id") {
                    Some(v) => match as_text(v) {
                        Some(s) => string_eq(&s, id.as_str()),
                        None => false,
                    },
                    None => false,
                };
                assert(same == (key_text(x, "id"@) == Some(id@)));
                if !same {
                    out.push(x);
                }
                proof {
                    taken = taken + 1;
                }
                assert(xs@ =~= orig.skip(taken)) by {
                    assert(xs@ =~= before.drop_first());
                }
            }
            assert(orig.take(taken) =~= orig);
            out
        },
    }
}

fn edit_list(v: YamlValue, e: EventsEdit) -> (r: YamlValue)
    requires
        untagged(v) is List,
        edit_fits(untagged(v)->List_0@, e),
    ensures
        with_list(v, r, edited(untagged(v)->List_0@, e)),
    decreases v,
{
    match v {
        YamlValue::Tagged(t, b) => YamlValue::Tagged(t, Box::new(edit_list(*b, e))),
        YamlValue::List(xs) => YamlValue::List(apply_edit(xs, e)),
        _ => v,
    }
}

/// The position of the first entry whose key is the string `key`.
fn first_key_pos(m: &Vec<(YamlValue, YamlValue)>, key: &str) -> (r: Option<usize>)
    ensures
        match r {
            Some(j) => first_key_at(m@, key@, j as int),
            None => forall|i: int| 0 <= i < m@.len() ==> !(#[trigger] m@[i].0 matches YamlValue::Str(k) && k@ == key@),
        },
{
    let mut i: usize = 0;
    while i < m.len()
        invariant
            i <= m.len(),
            forall|j: int| 0 <= j < i ==> !(#[trigger] m@[j].0 matches YamlValue::Str(k) && k@ == key@),
        decreases m.len() - i,
    {
        match &m[i].0 {
            YamlValue::Str(k) => {
                if string_eq(k, key) {
                    return Some(i);
                }
            },
            _ => {},
        }
        i = i + 1;
    }
    None
}

fn edit_events(d: YamlValue, e: EventsEdit) -> (r: YamlValue)
    requires
        events_list(d) is Some,
        edit_fits(events_list(d)->0, e),
    ensures
        with_events(d, r, edited(events_list(d)->0, e)),
    decreases d,
{
    match d {
        YamlValue::Tagged(t, b) => {
            assert(events_list(*b) == events_list(d));
            YamlValue::Tagged(t, Box::new(edit_events(*b, e)))
        },
        YamlValue::Mapping(m) => {
            let ghost xs = events_list(d)->0;
            let ghost m0 = m@;
            match first_key_pos(&m, "events") {
                Some(j) => {
                    proof {
                        crate::yaml::lemma_entry_for_at(m0, "events"@, j as int);
                    }
                    let mut m = m;
                    let (k, v) = m.remove(j);
                    let nv = edit_list(v, e);
                    m.insert(j, (k, nv));
                    assert(m@.len() == m0.len());
                    assert(forall|i: int| 0 <= i < m0.len() && i != j ==> #[trigger] m@[i] == m0[i]);
                    let r = YamlValue::Mapping(m);
                    assert(first_key_at(m0, "events"@, j as int));
                    r
                },
                None => {
                    proof {
                        assert(crate::yaml::entry_for(m0, "events"@) is None) by {
                            lemma_no_entry(m0, "events"@);
                        }
                    }
                    YamlValue::Mapping(m)
                },
            }
        },
        _ => d,
    }
}

proof fn lemma_no_entry(m: Seq<(YamlValue, YamlValue)>, key: Seq<char>)
    requires
        forall|i: int| 0 <= i < m.len() ==> !(#[trigger] m[i].0 matches YamlValue::Str(k) && k@ == key),
    ensures
        crate::yaml::entry_for(m, key) is None,
    decreases m.len(),
{
    if m.len() > 0 {
        assert(!(m[0].0 matches YamlValue::Str(k) && k@ == key));
        let m2 = m.drop_first();
        assert forall|i: int| 0 <= i < m2.len() implies !(#[trigger] m2[i].0 matches YamlValue::Str(k) && k@ == key) by {
            assert(m2[i] == m[i + 1]);
        }
        lemma_no_entry(m2, key);
    }
}

fn add_events(d: YamlValue, x: YamlValue) -> (r: YamlValue)
    requires
        untagged(d) is Mapping,
    ensures
        with_events_added(d, r, seq![x]),
    decreases d,
{
    match d {
        YamlValue::Tagged(t, b) => YamlValue::Tagged(t, Box::new(add_events(*b, x))),
        YamlValue::Mapping(m) => {
            let mut m = m;
            let ghost m0 = m@;
            let mut ys: Vec<YamlValue> = Vec::new();
            ys.push(x);
            assert(ys@ =~= seq![x]);
            m.push((YamlValue::Str(string_of(&chars_of("events"))), YamlValue::List(ys)));
            assert(forall|k: int| 0 <= k < m0.len() ==> #[trigger] m@[k] == m0[k]);
            YamlValue::Mapping(m)
        },
        _ => d,
    }
}

/// The id `id` is the id of one of the entries `xs`.
pub open spec fn listed(xs: Seq<YamlValue>, id: Seq<char>) -> bool {
    exists|j: int| 0 <= j < xs.len() && key_text(#[trigger] xs[j], "id"@) == Some(id)
}

/// The entry at `p` is the first with the id `id`.
pub open spec fn first_with_id(xs: Seq<YamlValue>, id: Seq<char>, p: int) -> bool {
    &&& 0 <= p < xs.len()
    &&& key_text(xs[p], "id"@) == Some(id)
    &&& forall|j: int| 0 <= j < p ==> key_text(#[trigger] xs[j], "id"@) != Some(id)
}

/// The ids of the entries, each a string or none.
fn entry_ids(xs: &Vec<YamlValue>) -> (r: Vec<Option<String>>)
    ensures
        r@.len() == xs@.len(),
        forall|j: int| 0 <= j < xs@.len() ==> opt_str(#[trigger] r@[j]) == key_text(xs@[j], "id"@),
{
    let mut r: Vec<Option<String>> = Vec::new();
    let mut i: usize = 0;
    while i < xs.len()
        invariant
            i <= xs.len(),
            r@.len() == i,
            forall|j: int| 0 <= j < i ==> opt_str(#[trigger] r@[j]) == key_text(xs@[j], "id"@),
        decreases xs.len() - i,
    {
        let t = match get_key(&xs[i], "id") {
            Some(v) => as_text(v),
            None => None,
        };
        r.push(t);
        i = i + 1;
    }
    r
}

pub open spec fn malformed_msg() -> Seq<char> {
    "events.yaml malformed"@
}

/// The document that adding an event starts from: the text's document when it is a
/// mapping (tags taken off), else an empty mapping.
pub open spec fn create_base(text: Seq<char>, d: YamlValue) -> bool {
    match yaml_document(text) {
        Some(v) => if untagged(v) is Mapping {
            d == v
        } else {
            d is Mapping && d->Mapping_0@.len() == 0
        },
        None => d is Mapping && d->Mapping_0@.len() == 0,
    }
}

/// `r` is `Ok` with the text `t`.
pub open spec fn ok_text(r: Result<String, String>, t: Seq<char>) -> bool {
    r matches Ok(x) && x@ == t
}

/// `r` is `Err` with the message `m`.
pub open spec fn err_text(r: Result<String, String>, m: Seq<char>) -> bool {
    r matches Err(x) && x@ == m
}

/// What adding the entry `x` of the event with id `id` to the document `d` gives: the
/// printed document with the entry at the end of its events list (a list added when the
/// key is missing); refused when the `events` value is not a list or an entry has the id.
pub open spec fn create_outcome(d: YamlValue, x: YamlValue, id: Seq<char>, r: Result<String, String>) -> bool {
    if key_value(d, "events"@) is None {
        exists|d2: YamlValue| with_events_added(d, d2, seq![x]) && ok_text(r, printed_or_empty(yaml_printed(d2)))
    } else {
        match events_list(d) {
            None => err_text(r, malformed_msg()),
            Some(xs) => if listed(xs, id) {
                err_text(r, already_exists_msg(id))
            } else {
                exists|d2: YamlValue|
                    with_events(d, d2, xs.push(x)) && ok_text(r, printed_or_empty(yaml_printed(d2)))
            },
        }
    }
}

fn printed(d: &YamlValue) -> (r: String)
    ensures
        r@ == printed_or_empty(yaml_printed(*d)),
{
    match print_yaml(d) {
        Some(t) => t,
        None => string_of(&Vec::new()),
    }
}

/// The text of `events.yaml` after adding the event `e` (its metadata value `md`): the
/// entry goes at the end of the `events` list of the document (a text that does not parse
/// as a mapping counts as an empty mapping, and a missing list as an empty one).
pub fn create_event_in_text(text: &str, e: &EventEntity, md: YamlValue) -> (r: Result<String, String>)
    ensures
        exists|d: YamlValue, x: YamlValue| create_base(text@, d) && is_entry_of(x, e@, md) && create_outcome(d, x, e@.id, r),
{
    let x = event_to_yaml(e, md);
    let d = match parse_yaml(text) {
        Some(v) => {
            let is_map = match untag(&v) {
                YamlValue::Mapping(_) => true,
                _ => false,
            };
            if is_map {
                v
            } else {
                YamlValue::Mapping(Vec::new())
            }
        },
        None => YamlValue::Mapping(Vec::new()),
    };
    assert(create_base(text@, d));
    let ghost gd = d;
    let ghost gx = x;
    let r = match get_key(&d, "events") {
        None => {
            let d2 = add_events(d, x);
            let r = Ok(printed(&d2));
            assert(with_events_added(gd, d2, seq![gx]) && ok_text(r, printed_or_empty(yaml_printed(d2))));
            r
        },
        Some(v) => {
            match untag(v) {
                YamlValue::List(xs) => {
                    assert(events_list(gd) == Some(xs@));
                    let ids = entry_ids(xs);
                    match crate::events::check_new_event_id(&ids, e.id.as_str()) {
                        Err(m) => {
                            proof {
                                let j = choose|j: int| 0 <= j < ids@.len() && opt_str(#[trigger] ids@[j]) == Some(e@.id);
                                assert(key_text(xs@[j], "id"@) == Some(e@.id));
                                assert(listed(xs@, e@.id));
                            }
                            Err(m)
                        },
                        Ok(()) => {
                            assert(!listed(xs@, e@.id)) by {
                                if listed(xs@, e@.id) {
                                    let j = choose|j: int| 0 <= j < xs@.len() && key_text(#[trigger] xs@[j], "id"@) == Some(e@.id);
                                    assert(opt_str(ids@[j]) == Some(e@.id));
                                }
                            }
                            let ghost xsv = xs@;
                            let d2 = edit_events(d, EventsEdit::Push(x));
                            assert(with_events(gd, d2, xsv.push(gx)));
                            let r = Ok(printed(&d2));
                            assert(ok_text(r, printed_or_empty(yaml_printed(d2))));
                            r
                        },
                    }
                },
                _ => {
                    assert(events_list(gd) is None);
                    Err(string_of(&chars_of("events.yaml malformed")))
                },
            }
        },
    };
    assert(create_outcome(gd, gx, e@.id, r));
    r
}

/// Replacing or removing an entry of a document that is neither a mapping nor null (tags
/// taken off) panics in serde_yaml's indexing.
pub open spec fn edit_panics(d: YamlValue) -> bool {
    !(untagged(d) is Mapping || untagged(d) is Null)
}

/// What replacing the entry of the event with id `id` by `x` in the document `d` gives:
/// the printed document with the first entry with that id replaced; refused when the
/// `events` value is not a list or no entry has the id.
pub open spec fn update_outcome(d: YamlValue, x: YamlValue, id: Seq<char>, r: Result<String, String>) -> bool {
    match events_list(d) {
        None => err_text(r, malformed_msg()),
        Some(xs) => if !listed(xs, id) {
            err_text(r, not_found_msg(id))
        } else {
            exists|p: int, d2: YamlValue|
                first_with_id(xs, id, p) && with_events(d, d2, xs.update(p, x)) && ok_text(
                    r,
                    printed_or_empty(yaml_printed(d2)),
                )
        },
    }
}

/// What removing the entries with id `id` from the document `d` gives: the printed
/// document without them; refused when the `events` value is not a list or no entry has
/// the id.
pub open spec fn delete_outcome(d: YamlValue, id: Seq<char>, r: Result<String, String>) -> bool {
    match events_list(d) {
        None => err_text(r, malformed_msg()),
        Some(xs) => if !listed(xs, id) {
            err_text(r, not_found_msg(id))
        } else {
            exists|d2: YamlValue|
                with_events(d, d2, without_id(xs, id)) && ok_text(r, printed_or_empty(yaml_printed(d2)))
        },
    }
}

fn is_map_or_null(d: &YamlValue) -> (b: bool)
    ensures
        b == !edit_panics(*d),
{
    match untag(d) {
        YamlValue::Mapping(_) => true,
        YamlValue::Null => true,
        _ => false,
    }
}

fn list_and_ids(d: &YamlValue) -> (r: Option<Vec<Option<String>>>)
    ensures
        match events_list(*d) {
            Some(xs) => r matches Some(ids) && ids@.len() == xs.len() && forall|j: int|
                0 <= j < xs.len() ==> opt_str(#[trigger] ids@[j]) == key_text(xs[j], "id"@),
            None => r is None,
        },
{
    match get_key(d, "events") {
        Some(v) => match untag(v) {
            YamlValue::List(xs) => Some(entry_ids(xs)),
            _ => None,
        },
        None => None,
    }
}

/// The text of `events.yaml` after replacing the entry of the event `e` (its metadata
/// value `md`): the first entry with its id. `None` where the document is neither a
/// mapping nor null, on which serde_yaml's indexing panics.
pub fn update_event_in_text(text: &str, e: &EventEntity, md: YamlValue) -> (r: Option<Result<String, String>>)
    ensures
        match yaml_parsed(text@) {
            Err(m) => r matches Some(res) && err_text(res, m),
            Ok(d) => if edit_panics(d) {
                r is None
            } else {
                r matches Some(res) && exists|x: YamlValue| is_entry_of(x, e@, md) && update_outcome(d, x, e@.id, res)
            },
        },
{
    let d = match parse_yaml_text(text) {
        Err(m) => return Some(Err(m)),
        Ok(d) => d,
    };
    if !is_map_or_null(&d) {
        return None;
    }
    let x = event_to_yaml(e, md);
    let ghost gd = d;
    let ghost gx = x;
    let res = match list_and_ids(&d) {
        None => Err(string_of(&chars_of("events.yaml malformed"))),
        Some(ids) => {
            let ghost xs = events_list(gd)->0;
            match crate::events::event_position(&ids, e.id.as_str()) {
                Err(m) => {
                    assert(!listed(xs, e@.id)) by {
                        if listed(xs, e@.id) {
                            let j = choose|j: int| 0 <= j < xs.len() && key_text(#[trigger] xs[j], "id"@) == Some(e@.id);
                            assert(opt_str(ids@[j]) == Some(e@.id));
                        }
                    }
                    Err(m)
                },
                Ok(p) => {
                    assert(first_with_id(xs, e@.id, p as int)) by {
                        assert forall|j: int| 0 <= j < p implies key_text(#[trigger] xs[j], "id"@) != Some(e@.id) by {
                            assert(opt_str(ids@[j]) != Some(e@.id));
                        }
                    }
                    assert(key_text(xs[p as int], "id"@) == Some(e@.id));
                    let d2 = edit_events(d, EventsEdit::Replace(p, x));
                    assert(with_events(gd, d2, xs.update(p as int, gx)));
                    let r = Ok(printed(&d2));
                    assert(ok_text(r, printed_or_empty(yaml_printed(d2))));
                    r
                },
            }
        },
    };
    assert(update_outcome(gd, gx, e@.id, res));
    Some(res)
}

/// The text of `events.yaml` after removing every entry with the id `id`. `None` where
/// the document is neither a mapping nor null, on which serde_yaml's indexing panics.
pub fn delete_event_in_text(text: &str, id: &str) -> (r: Option<Result<String, String>>)
    ensures
        match yaml_parsed(text@) {
            Err(m) => r matches Some(res) && err_text(res, m),
            Ok(d) => if edit_panics(d) {
                r is None
            } else {
                r matches Some(res) && delete_outcome(d, id@, res)
            },
        },
{
    let d = match parse_yaml_text(text) {
        Err(m) => return Some(Err(m)),
        Ok(d) => d,
    };
    if !is_map_or_null(&d) {
        return None;
    }
    let ghost gd = d;
    let res = match list_and_ids(&d) {
        None => Err(string_of(&chars_of("events.yaml malformed"))),
        Some(ids) => {
            let ghost xs = events_list(gd)->0;
            match crate::events::event_position(&ids, id) {
                Err(m) => {
                    assert(!listed(xs, id@)) by {
                        if listed(xs, id@) {
                            let j = choose|j: int| 0 <= j < xs.len() && key_text(#[trigger] xs[j], "id"@) == Some(id@);
                            assert(opt_str(ids@[j]) == Some(id@));
                        }
                    }
                    Err(m)
                },
                Ok(p) => {
                    assert(key_text(xs[p as int], "id"@) == Some(id@));
                    let d2 = edit_events(d, EventsEdit::Drop(string_of(&chars_of(id))));
                    assert(with_events(gd, d2, without_id(xs, id@)));
                    let r = Ok(printed(&d2));
                    assert(ok_text(r, printed_or_empty(yaml_printed(d2))));
                    r
                },
            }
        },
    };
    assert(delete_outcome(gd, id@, res));
    Some(res)
}

} // verus!
