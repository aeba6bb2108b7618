//! Events as the vault stores them: building them from stored fields and from command
//! arguments, and finding them by id.

use vstd::prelude::*;
use crate::models::{EventEntity, EventMetadata, EventView, MetadataView, opt_str, strs};
use crate::storage::{frontmatter_ids, string_eq, string_items_spec};
use crate::text::{chars_of, string_of, trim_chars, trim_seq};
use crate::yaml::{
    as_text, get_key, key_value, lemma_entry_for_at, parse_yaml, print_yaml, str_of, take_key, into_untagged, untag,
    untagged, yaml_document, yaml_printed, YamlValue, is_str,
};

verus! {

/// Metadata with every field empty.
pub open spec fn empty_metadata() -> MetadataView {
    MetadataView {
        source_platform: Seq::empty(),
        source_account: Seq::empty(),
        source_event_id: Seq::empty(),
        source_calendar_id: Seq::empty(),
        etag: Seq::empty(),
        last_synced_at: None,
        recurring_event_id: Seq::empty(),
        source_updated_at: None,
    }
}

pub fn default_metadata() -> (m: EventMetadata)
    ensures
        m@ == empty_metadata(),
{
    EventMetadata {
        source_platform: String::new(),
        source_account: String::new(),
        source_event_id: String::new(),
        source_calendar_id: String::new(),
        etag: String::new(),
        last_synced_at: None,
        recurring_event_id: String::new(),
        source_updated_at: None,
    }
}

/// The fields of one entry of `events.yaml`, as plain values: a text field is present
/// when the entry has it as a string (`from` / `to` also when it is a number or another
/// scalar, in its printed form); `metadata` when it reads as metadata.
#[derive(Debug, Clone, PartialEq, Eq)]
pub struct EventFields {
    pub id: Option<String>,
    pub source: Option<String>,
    pub from: Option<String>,
    pub to: Option<String>,
    pub name: Option<String>,
    pub description: Option<String>,
    pub participants: Option<Vec<Option<String>>>,
    pub location: Option<String>,
    pub metadata: Option<EventMetadata>,
}

pub open spec fn text_or(o: Option<String>, d: Seq<char>) -> Seq<char> {
    match o {
        Some(s) => s@,
        None => d,
    }
}

/// The event of a stored entry: `id`, `from`, `to` and `name` are required; `source`
/// defaults to `local`, the other texts to empty, metadata to empty metadata.
pub open spec fn event_of_fields(f: EventFields) -> Option<EventView> {
    if f.id is None || f.from is None || f.to is None || f.name is None {
        None
    } else {
        Some(
            EventView {
                id: f.id->0@,
                source: text_or(f.source, "local"@),
                from_: f.from->0@,
                to: f.to->0@,
                name: f.name->0@,
                description: text_or(f.description, Seq::empty()),
                participants: match f.participants {
                    Some(v) => string_items_spec(v@),
                    None => Seq::empty(),
                },
                location: text_or(f.location, Seq::empty()),
                metadata: match f.metadata {
                    Some(m) => m@,
                    None => empty_metadata(),
                },
            },
        )
    }
}

fn or_text(o: Option<String>, d: &str) -> (r: String)
    ensures
        r@ == text_or(o, d@),
{
    match o {
        Some(s) => s,
        None => string_of(&chars_of(d)),
    }
}

/// Builds the event of a stored `events.yaml` entry.
pub fn event_from_fields(f: EventFields) -> (r: Option<EventEntity>)
    ensures
        match event_of_fields(f) {
            Some(ev) => r matches Some(e) && e@ == ev,
            None => r is None,
        },
{
    let ghost fv = f;
    if f.id.is_none() || f.from.is_none() || f.to.is_none() || f.name.is_none() {
        return None;
    }
    assert(""@ == Seq::<char>::empty()) by {
        reveal_strlit("");
    }
    let participants = frontmatter_ids(&f.participants);
    let metadata = match f.metadata {
        Some(m) => m,
        None => default_metadata(),
    };
    Some(
        EventEntity {
            id: f.id.unwrap(),
            source: or_text(f.source, "local"),
            from_: f.from.unwrap(),
            to: f.to.unwrap(),
            name: f.name.unwrap(),
            description: or_text(f.description, ""),
            participants,
            location: or_text(f.location, ""),
            metadata,
        },
    )
}

/// The entries listed under `events` in a parsed `events.yaml` document; none when the
/// text does not parse or has no such list.
pub open spec fn event_entries_of(doc: Option<YamlValue>) -> Seq<YamlValue> {
    match doc {
        Some(d) => match key_value(d, "events"@) {
            Some(e) => match untagged(e) {
                YamlValue::List(xs) => xs@,
                _ => Seq::empty(),
            },
            None => Seq::empty(),
        },
        None => Seq::empty(),
    }
}

/// Reads the text of `events.yaml` into its event entries.
pub fn event_entries(text: &str) -> (r: Vec<YamlValue>)
    ensures
        r@ == event_entries_of(yaml_document(text@)),
{
    match parse_yaml(text) {
        Some(d) => match take_key(d, "events") {
            Some(e) => match into_untagged(e) {
                YamlValue::List(xs) => xs,
                _ => Vec::new(),
            },
            None => Vec::new(),
        },
        None => Vec::new(),
    }
}

/// A scalar as the text that a start or an end is stored as: a string as it is, a number
/// in its printed form, another value printed as YAML and trimmed.
pub open spec fn scalar_text(v: YamlValue) -> Option<Seq<char>> {
    match v {
        YamlValue::Str(s) => Some(s@),
        YamlValue::Number(n) => Some(n@),
        _ => match yaml_printed(v) {
            Some(t) => Some(trim_seq(t)),
            None => None,
        },
    }
}

fn scalar_text_of(v: &YamlValue) -> (r: Option<String>)
    ensures
        opt_str(r) == scalar_text(*v),
{
    match v {
        YamlValue::Str(s) => Some(s.clone()),
        YamlValue::Number(n) => Some(n.clone()),
        _ => match print_yaml(v) {
            Some(t) => Some(string_of(&trim_chars(&chars_of(t.as_str())))),
            None => None,
        },
    }
}

/// The string under `key` in an entry.
pub open spec fn key_text(e: YamlValue, key: Seq<char>) -> Option<Seq<char>> {
    match key_value(e, key) {
        Some(v) => str_of(v),
        None => None,
    }
}

/// The scalar under `key` in an entry, as text.
pub open spec fn key_scalar(e: YamlValue, key: Seq<char>) -> Option<Seq<char>> {
    match key_value(e, key) {
        Some(v) => scalar_text(v),
        None => None,
    }
}

/// The items of the list under `key` in an entry, each as its string or none.
pub open spec fn key_items(e: YamlValue, key: Seq<char>) -> Option<Seq<Option<Seq<char>>>> {
    match key_value(e, key) {
        Some(v) => match untagged(v) {
            YamlValue::List(xs) => Some(xs@.map_values(|x: YamlValue| str_of(x))),
            _ => None,
        },
        None => None,
    }
}

pub open spec fn opt_items(o: Option<Vec<Option<String>>>) -> Option<Seq<Option<Seq<char>>>> {
    match o {
        Some(v) => Some(v@.map_values(|x: Option<String>| opt_str(x))),
        None => None,
    }
}

/// `f` holds the fields of the entry `v`: each text field the string under its key, `from`
/// and `to` the scalars under theirs, the participants the items of the list under
/// `participants`, and `md` as the metadata.
pub open spec fn fields_read(f: EventFields, v: YamlValue, md: Option<EventMetadata>) -> bool {
    &&& opt_str(f.id) == key_text(v, "id"@)
    &&& opt_str(f.source) == key_text(v, "source"@)
    &&& opt_str(f.from) == key_scalar(v, "from"@)
    &&& opt_str(f.to) == key_scalar(v, "to"@)
    &&& opt_str(f.name) == key_text(v, "name"@)
    &&& opt_str(f.description) == key_text(v, "description"@)
    &&& opt_items(f.participants) == key_items(v, "participants"@)
    &&& opt_str(f.location) == key_text(v, "location"@)
    &&& f.metadata == md
}

/// `v` is the `events.yaml` entry of the event `e`: exactly the mapping of the keys `id`,
/// `source`, `from`, `to`, `name`, `description`, `participants`, `location` and
/// `metadata`, in this order, to the event's fields as strings (the participants as a
/// list of strings) and to `md`.
pub open spec fn is_entry_of(v: YamlValue, e: EventView, md: YamlValue) -> bool {
    &&& v matches YamlValue::Mapping(m)
    &&& v->Mapping_0@.len() == 9
    &&& is_str(v->Mapping_0@[0].0, "id"@) && is_str(v->Mapping_0@[0].1, e.id)
    &&& is_str(v->Mapping_0@[1].0, "source"@) && is_str(v->Mapping_0@[1].1, e.source)
    &&& is_str(v->Mapping_0@[2].0, "from"@) && is_str(v->Mapping_0@[2].1, e.from_)
    &&& is_str(v->Mapping_0@[3].0, "to"@) && is_str(v->Mapping_0@[3].1, e.to)
    &&& is_str(v->Mapping_0@[4].0, "name"@) && is_str(v->Mapping_0@[4].1, e.name)
    &&& is_str(v->Mapping_0@[5].0, "description"@) && is_str(v->Mapping_0@[5].1, e.description)
    &&& is_str(v->Mapping_0@[6].0, "participants"@)
    &&& v->Mapping_0@[6].1 matches YamlValue::List(xs)
    &&& v->Mapping_0@[6].1->List_0@.len() == e.participants.len()
    &&& forall|i: int|
        0 <= i < e.participants.len() ==> #[trigger] is_str(v->Mapping_0@[6].1->List_0@[i], e.participants[i])
    &&& is_str(v->Mapping_0@[7].0, "location"@) && is_str(v->Mapping_0@[7].1, e.location)
    &&& is_str(v->Mapping_0@[8].0, "metadata"@) && v->Mapping_0@[8].1 == md
}

/// Reading the entry `v` by its keys gives the fields of `e`, and `md` as its metadata.
pub open spec fn entry_reads_as(v: YamlValue, e: EventView, md: YamlValue) -> bool {
    &&& key_text(v, "id"@) == Some(e.id)
    &&& key_text(v, "source"@) == Some(e.source)
    &&& key_scalar(v, "from"@) == Some(e.from_)
    &&& key_scalar(v, "to"@) == Some(e.to)
    &&& key_text(v, "name"@) == Some(e.name)
    &&& key_text(v, "description"@) == Some(e.description)
    &&& key_items(v, "participants"@) == Some(e.participants.map_values(|p: Seq<char>| Some(p)))
    &&& key_text(v, "location"@) == Some(e.location)
    &&& key_value(v, "metadata"@) == Some(md)
}

/// An entry of that shape reads back, key by key, as the event's fields.
pub proof fn lemma_entry_reads_as(v: YamlValue, e: EventView, md: YamlValue)
    requires
        is_entry_of(v, e, md),
    ensures
        entry_reads_as(v, e, md),
{
    reveal_strlit("id");
    reveal_strlit("source");
    reveal_strlit("from");
    reveal_strlit("to");
    reveal_strlit("name");
    reveal_strlit("description");
    reveal_strlit("participants");
    reveal_strlit("location");
    reveal_strlit("metadata");
    assert("id"@[0] == 'i' && "source"@[0] == 's' && "from"@[0] == 'f' && "to"@[0] == 't');
    assert("name"@[0] == 'n' && "description"@[0] == 'd' && "participants"@[0] == 'p');
    assert("location"@[0] == 'l' && "metadata"@[0] == 'm');
    let ms = v->Mapping_0@;
    assert(untagged(v) == v);
    lemma_entry_for_at(ms, "id"@, 0);
    lemma_entry_for_at(ms, "source"@, 1);
    lemma_entry_for_at(ms, "from"@, 2);
    lemma_entry_for_at(ms, "to"@, 3);
    lemma_entry_for_at(ms, "name"@, 4);
    lemma_entry_for_at(ms, "description"@, 5);
    lemma_entry_for_at(ms, "participants"@, 6);
    lemma_entry_for_at(ms, "location"@, 7);
    lemma_entry_for_at(ms, "metadata"@, 8);
    let xs = ms[6].1->List_0@;
    assert(untagged(ms[6].1) == ms[6].1);
    assert forall|i: int| 0 <= i < xs.len() implies #[trigger] str_of(xs[i]) == Some(e.participants[i]) by {
        assert(is_str(xs[i], e.participants[i]));
        assert(untagged(xs[i]) == xs[i]);
    }
    assert(xs.map_values(|x: YamlValue| str_of(x)) =~= e.participants.map_values(|p: Seq<char>| Some(p)));
    assert(untagged(ms[0].1) == ms[0].1);
    assert(untagged(ms[1].1) == ms[1].1);
    assert(untagged(ms[4].1) == ms[4].1);
    assert(untagged(ms[5].1) == ms[5].1);
    assert(untagged(ms[7].1) == ms[7].1);
}

fn text_value(s: &str) -> (r: YamlValue)
    ensures
        r matches YamlValue::Str(t) && t@ == s@,
{
    YamlValue::Str(string_of(&chars_of(s)))
}

/// An event as its `events.yaml` entry (its start under the key `from`), with `metadata`
/// as the value of its `metadata` key.
pub fn event_to_yaml(e: &EventEntity, metadata: YamlValue) -> (r: YamlValue)
    ensures
        is_entry_of(r, e@, metadata),
{
    let mut ps: Vec<YamlValue> = Vec::new();
    let mut i: usize = 0;
    while i < e.participants.len()
        invariant
            i <= e.participants.len(),
            ps@.len() == i,
            forall|j: int| 0 <= j < i ==> #[trigger] is_str(ps@[j], e.participants@[j]@),
        decreases e.participants.len() - i,
    {
        ps.push(YamlValue::Str(e.participants[i].clone()));
        i = i + 1;
    }
    let m: Vec<(YamlValue, YamlValue)> = vec![
        (text_value("id"), YamlValue::Str(e.id.clone())),
        (text_value("source"), YamlValue::Str(e.source.clone())),
        (text_value("from"), YamlValue::Str(e.from_.clone())),
        (text_value("to"), YamlValue::Str(e.to.clone())),
        (text_value("name"), YamlValue::Str(e.name.clone())),
        (text_value("description"), YamlValue::Str(e.description.clone())),
        (text_value("participants"), YamlValue::List(ps)),
        (text_value("location"), YamlValue::Str(e.location.clone())),
        (text_value("metadata"), metadata),
    ];
    let r = YamlValue::Mapping(m);
    assert forall|j: int| 0 <= j < e@.participants.len() implies #[trigger] is_str(
        r->Mapping_0@[6].1->List_0@[j],
        e@.participants[j],
    ) by {
        assert(is_str(ps@[j], e.participants@[j]@));
    }
    r
}

fn key_text_of(e: &YamlValue, key: &str) -> (r: Option<String>)
    ensures
        opt_str(r) == key_text(*e, key@),
{
    match get_key(e, key) {
        Some(v) => as_text(v),
        None => None,
    }
}

/// Reads the fields of one `events.yaml` entry; `metadata` is what its `metadata` value
/// reads as.
pub fn event_fields_of(entry: &YamlValue, metadata: Option<EventMetadata>) -> (f: EventFields)
    ensures
        fields_read(f, *entry, metadata),
{
    let from = match get_key(entry, "from") {
        Some(v) => scalar_text_of(v),
        None => None,
    };
    let to = match get_key(entry, "to") {
        Some(v) => scalar_text_of(v),
        None => None,
    };
    let participants = match get_key(entry, "participants") {
        Some(v) => match untag(v) {
            YamlValue::List(xs) => {
                let mut items: Vec<Option<String>> = Vec::new();
                let mut i: usize = 0;
                while i < xs.len()
                    invariant
                        i <= xs.len(),
                        items@.map_values(|x: Option<String>| opt_str(x))
                            == xs@.take(i as int).map_values(|x: YamlValue| str_of(x)),
                    decreases xs.len() - i,
                {
                    let t = as_text(&xs[i]);
                    let ghost old = items@;
                    items.push(t);
                    assert(items@.map_values(|x: Option<String>| opt_str(x)) =~= old.map_values(
                        |x: Option<String>| opt_str(x),
                    ).push(opt_str(t)));
                    assert(xs@.take(i + 1).map_values(|x: YamlValue| str_of(x)) =~= xs@.take(
                        i as int,
                    ).map_values(|x: YamlValue| str_of(x)).push(str_of(xs@[i as int])));
                    i = i + 1;
                }
                assert(xs@.take(xs@.len() as int) =~= xs@);
                Some(items)
            },
            _ => None,
        },
        None => None,
    };
    EventFields {
        id: key_text_of(entry, "id"),
        source: key_text_of(entry, "source"),
        from,
        to,
        name: key_text_of(entry, "name"),
        description: key_text_of(entry, "description"),
        participants,
        location: key_text_of(entry, "location"),
        metadata,
    }
}

/// The value under `metadata` in an entry, which the caller reads as event metadata.
pub fn metadata_value(entry: &YamlValue) -> (r: Option<&YamlValue>)
    ensures
        match key_value(*entry, "metadata"@) {
            Some(x) => r matches Some(y) && *y == x,
            None => r is None,
        },
{
    get_key(entry, "metadata")
}

/// Finds the first stored entry with the id `id` (entries without a string id never
/// match).
pub fn event_index(ids: &Vec<Option<String>>, id: &str) -> (r: Option<usize>)
    ensures
        match r {
            Some(i) => i < ids.len() && opt_str(ids@[i as int]) == Some(id@) && forall|j: int|
                0 <= j < i ==> opt_str(#[trigger] ids@[j]) != Some(id@),
            None => forall|j: int| 0 <= j < ids.len() ==> opt_str(#[trigger] ids@[j]) != Some(id@),
        },
{
    let mut i: usize = 0;
    while i < ids.len()
        invariant
            i <= ids.len(),
            forall|j: int| 0 <= j < i ==> opt_str(#[trigger] ids@[j]) != Some(id@),
        decreases ids.len() - i,
    {
        match &ids[i] {
            Some(s) => {
                if string_eq(s, id) {
                    return Some(i);
                }
            },
            None => {},
        }
        i = i + 1;
    }
    None
}

/// `prefix` followed by `id`, as an error message.
fn message(prefix: &str, id: &str) -> (r: String)
    ensures
        r@ == prefix@ + id@,
{
    let mut v = chars_of(prefix);
    crate::text::append_chars(&mut v, &chars_of(id));
    string_of(&v)
}

pub open spec fn already_exists_msg(id: Seq<char>) -> Seq<char> {
    "Event already exists: "@ + id
}

pub open spec fn not_found_msg(id: Seq<char>) -> Seq<char> {
    "Event not found: "@ + id
}

/// Whether some stored entry has the id `id`.
pub open spec fn has_event_id(ids: Seq<Option<String>>, id: Seq<char>) -> bool {
    exists|j: int| 0 <= j < ids.len() && opt_str(#[trigger] ids[j]) == Some(id)
}

/// Creating an event: refused when an entry with its id is already stored.
pub fn check_new_event_id(ids: &Vec<Option<String>>, id: &str) -> (r: Result<(), String>)
    ensures
        match r {
            Ok(()) => !has_event_id(ids@, id@),
            Err(e) => has_event_id(ids@, id@) && e@ == already_exists_msg(id@),
        },
{
    match event_index(ids, id) {
        Some(i) => {
            assert(opt_str(ids@[i as int]) == Some(id@));
            Err(message("Event already exists: ", id))
        },
        None => Ok(()),
    }
}

/// Updating an event: the position of the first entry with its id, or the error when
/// there is none.
pub fn event_position(ids: &Vec<Option<String>>, id: &str) -> (r: Result<usize, String>)
    ensures
        match r {
            Ok(i) => i < ids.len() && opt_str(ids@[i as int]) == Some(id@) && forall|j: int|
                0 <= j < i ==> opt_str(#[trigger] ids@[j]) != Some(id@),
            Err(e) => !has_event_id(ids@, id@) && e@ == not_found_msg(id@),
        },
{
    match event_index(ids, id) {
        Some(i) => Ok(i),
        None => Err(message("Event not found: ", id)),
    }
}

/// The positions of the entries kept when deleting every entry with the id `id`.
pub open spec fn kept_positions(ids: Seq<Option<String>>, id: Seq<char>) -> Seq<int>
    decreases ids.len(),
{
    if ids.len() == 0 {
        Seq::empty()
    } else {
        let rest = kept_positions(ids.drop_last(), id);
        if opt_str(ids.last()) == Some(id) {
            rest
        } else {
            rest.push(ids.len() - 1)
        }
    }
}

/// Deleting an event: the positions of the entries that remain, in order, or the error
/// when no entry has the id.
pub fn positions_after_delete(ids: &Vec<Option<String>>, id: &str) -> (r: Result<Vec<usize>, String>)
    ensures
        match r {
            Ok(v) => has_event_id(ids@, id@) && v@.map_values(|i: usize| i as int) == kept_positions(
                ids@,
                id@,
            ),
            Err(e) => !has_event_id(ids@, id@) && e@ == not_found_msg(id@),
        },
{
    let mut kept: Vec<usize> = Vec::new();
    let mut found = false;
    let mut i: usize = 0;
    assert(ids@.take(0) =~= Seq::<Option<String>>::empty());
    while i < ids.len()
        invariant
            i <= ids.len(),
            kept@.map_values(|k: usize| k as int) == kept_positions(ids@.take(i as int), id@),
            found == has_event_id(ids@.take(i as int), id@),
        decreases ids.len() - i,
    {
        let ghost old_kept = kept@;
        assert(ids@.take(i + 1).drop_last() =~= ids@.take(i as int));
        assert(ids@.take(i + 1).last() == ids@[i as int]);
        let matches = match &ids[i] {
            Some(s) => string_eq(s, id),
            None => false,
        };
        if matches {
            found = true;
            assert(opt_str(ids@.take(i + 1)[i as int]) == Some(id@));
        } else {
            kept.push(i);
            assert(kept@.map_values(|k: usize| k as int) =~= old_kept.map_values(|k: usize| k as int).push(i as int));
            assert(has_event_id(ids@.take(i + 1), id@) == has_event_id(ids@.take(i as int), id@)) by {
                if has_event_id(ids@.take(i + 1), id@) {
                    let j = choose|j: int| 0 <= j < i + 1 && opt_str(#[trigger] ids@.take(i + 1)[j]) == Some(id@);
                    assert(ids@.take(i as int)[j] == ids@.take(i + 1)[j]);
                }
                if has_event_id(ids@.take(i as int), id@) {
                    let j = choose|j: int| 0 <= j < i && opt_str(#[trigger] ids@.take(i as int)[j]) == Some(id@);
                    assert(ids@.take(i as int)[j] == ids@.take(i + 1)[j]);
                }
            }
        }
        if matches {
            assert(has_event_id(ids@.take(i + 1), id@));
        }
        i = i + 1;
    }
    assert(ids@.take(ids@.len() as int) =~= ids@);
    if found {
        Ok(kept)
    } else {
        Err(message("Event not found: ", id))
    }
}

/// A new event from the arguments of the create command: `source` defaults to `local`,
/// the optional texts to empty, participants to none, metadata to empty metadata.
pub fn new_event(
    id: String,
    source: Option<String>,
    from_: String,
    to: String,
    name: String,
    description: Option<String>,
    location: Option<String>,
    participants: Option<Vec<String>>,
    metadata: Option<EventMetadata>,
) -> (e: EventEntity)
    ensures
        e.id == id && e.from_ == from_ && e.to == to && e.name == name,
        e.source@ == text_or(source, "local"@),
        e.description@ == text_or(description, Seq::empty()),
        e.location@ == text_or(location, Seq::empty()),
        strs(e.participants@) == match participants {
            Some(p) => strs(p@),
            None => Seq::empty(),
        },
        e.metadata@ == match metadata {
            Some(m) => m@,
            None => empty_metadata(),
        },
{
    assert(""@ == Seq::<char>::empty()) by {
        reveal_strlit("");
    }
    let participants = match participants {
        Some(p) => p,
        None => {
            let v: Vec<String> = Vec::new();
            assert(strs(v@) =~= Seq::<Seq<char>>::empty());
            v
        },
    };
    EventEntity {
        id,
        source: or_text(source, "local"),
        from_,
        to,
        name,
        description: or_text(description, ""),
        participants,
        location: or_text(location, ""),
        metadata: match metadata {
            Some(m) => m,
            None => default_metadata(),
        },
    }
}

/// The event after the update command: id, source and metadata kept from `existing`,
/// everything else from the arguments (absent texts empty, absent participants none).
pub fn updated_event(
    existing: EventEntity,
    name: String,
    from_: String,
    to: String,
    description: Option<String>,
    location: Option<String>,
    participants: Option<Vec<String>>,
) -> (e: EventEntity)
    ensures
        e.id == existing.id && e.source == existing.source && e.metadata == existing.metadata,
        e.from_ == from_ && e.to == to && e.name == name,
        e.description@ == text_or(description, Seq::empty()),
        e.location@ == text_or(location, Seq::empty()),
        strs(e.participants@) == match participants {
            Some(p) => strs(p@),
            None => Seq::empty(),
        },
{
    assert(""@ == Seq::<char>::empty()) by {
        reveal_strlit("");
    }
    let participants = match participants {
        Some(p) => p,
        None => {
            let v: Vec<String> = Vec::new();
            assert(strs(v@) =~= Seq::<Seq<char>>::empty());
            v
        },
    };
    EventEntity {
        id: existing.id,
        source: existing.source,
        from_,
        to,
        name,
        description: or_text(description, ""),
        participants,
        location: or_text(location, ""),
        metadata: existing.metadata,
    }
}

} // verus!
