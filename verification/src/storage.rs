//! Vault layout, vault validation, content sanitising, front-matter framing,
//! titles and previews of markdown bodies, and the recent-vault list.

use vstd::prelude::*;
use crate::models::{lemma_strs_push, lemma_strs_take_push, strs};
use crate::json::{get_member, json_document, member, parse_json, JsonValue};
use crate::yaml::{as_text, is_str, print_yaml, yaml_printed, parse_yaml, str_of, untag, untagged, yaml_document, YamlValue};
use crate::text::{
    split_chars,
    trim_chars, trim_seq, trim_start_chars, trim_start_seq, words_chars, words_of,
    utf8_len, append_chars, byte_len, char_utf8_len, chars_of,
    ends_with, has_prefix, has_suffix, join_chars, join_seq, lemma_byte_len_concat,
    lemma_byte_len_ge_len, lemma_byte_len_take_mono,
    lemma_pieces_nonempty, lines_chars, lines_of, matches_at, replace_chars, replace_seq,
    split_pieces, starts_with, string_of, strip_cr, sub_chars, trim_end_chars, trim_end_seq, views,
};

verus! {

/// `base` extended by `name` as `PathBuf::push` does on Unix: an absolute `name`
/// replaces `base`, and one `'/'` separates them unless `base` is empty or already
/// ends in `'/'`.
pub open spec fn join_path(base: Seq<char>, name: Seq<char>) -> Seq<char> {
    if name.len() > 0 && name[0] == '/' {
        name
    } else if base.len() == 0 || base.last() == '/' {
        base + name
    } else {
        base + seq!['/'] + name
    }
}

pub fn join_path_str(base: &str, name: &str) -> (r: String)
    ensures
        r@ == join_path(base@, name@),
{
    let b = chars_of(base);
    let n = chars_of(name);
    let mut out: Vec<char>;
    if n.len() > 0 && n[0] == '/' {
        out = n;
    } else if b.len() == 0 || b[b.len() - 1] == '/' {
        out = b;
        append_chars(&mut out, &n);
    } else {
        out = b;
        out.push('/');
        append_chars(&mut out, &n);
    }
    string_of(&out)
}

/// The default `source` of an event.
pub fn default_local() -> (r: String)
    ensures
        r@ == seq!['l', 'o', 'c', 'a', 'l'],
{
    string_of(&vec!['l', 'o', 'c', 'a', 'l'])
}

pub open spec fn events_name() -> Seq<char> {
    seq!['e', 'v', 'e', 'n', 't', 's', '.', 'y', 'a', 'm', 'l']
}

pub open spec fn tasks_name() -> Seq<char> {
    seq!['t', 'a', 's', 'k', 's', '.', 'm', 'd']
}

pub open spec fn notes_name() -> Seq<char> {
    seq!['n', 'o', 't', 'e', 's']
}

pub open spec fn projects_name() -> Seq<char> {
    seq!['p', 'r', 'o', 'j', 'e', 'c', 't', 's']
}

pub open spec fn md_ext() -> Seq<char> {
    seq!['.', 'm', 'd']
}

/// `name`, with `.md` appended unless it already ends in `.md`.
pub open spec fn with_md_ext(name: Seq<char>) -> Seq<char> {
    if has_suffix(name, md_ext()) {
        name
    } else {
        name + md_ext()
    }
}

fn join_chars_str(base: &str, name: Vec<char>) -> (r: String)
    ensures
        r@ == join_path(base@, name@),
{
    let s = string_of(&name);
    join_path_str(base, s.as_str())
}

/// `<root>/events.yaml`.
pub fn events_file(data_root: &str) -> (r: String)
    ensures
        r@ == join_path(data_root@, events_name()),
{
    join_chars_str(data_root, vec!['e', 'v', 'e', 'n', 't', 's', '.', 'y', 'a', 'm', 'l'])
}

/// `<root>/tasks.md`.
pub fn tasks_file(data_root: &str) -> (r: String)
    ensures
        r@ == join_path(data_root@, tasks_name()),
{
    join_chars_str(data_root, vec!['t', 'a', 's', 'k', 's', '.', 'm', 'd'])
}

/// `<root>/notes`.
pub fn notes_dir(data_root: &str) -> (r: String)
    ensures
        r@ == join_path(data_root@, notes_name()),
{
    join_chars_str(data_root, vec!['n', 'o', 't', 'e', 's'])
}

/// `<root>/projects`.
pub fn projects_dir(data_root: &str) -> (r: String)
    ensures
        r@ == join_path(data_root@, projects_name()),
{
    join_chars_str(data_root, vec!['p', 'r', 'o', 'j', 'e', 'c', 't', 's'])
}

/// `name` with the `.md` extension ensured.
pub fn ensure_md_ext(filename: &str) -> (r: String)
    ensures
        r@ == with_md_ext(filename@),
{
    let mut v = chars_of(filename);
    let ext = vec!['.', 'm', 'd'];
    if !ends_with(&v, &ext) {
        append_chars(&mut v, &ext);
    }
    string_of(&v)
}

/// `<root>/notes/<name>.md`.
pub fn note_file(data_root: &str, name: &str) -> (r: String)
    ensures
        r@ == join_path(join_path(data_root@, notes_name()), with_md_ext(name@)),
{
    let dir = notes_dir(data_root);
    let n = ensure_md_ext(name);
    join_path_str(dir.as_str(), n.as_str())
}

/// `<root>/projects/<name>.md`.
pub fn project_file(data_root: &str, name: &str) -> (r: String)
    ensures
        r@ == join_path(join_path(data_root@, projects_name()), with_md_ext(name@)),
{
    let dir = projects_dir(data_root);
    let n = ensure_md_ext(name);
    join_path_str(dir.as_str(), n.as_str())
}

/// What the file system reports of a vault's expected entries.
#[derive(Debug, Clone, Copy, PartialEq, Eq)]
pub struct StructureProbe {
    pub root_is_dir: bool,
    pub notes_is_dir: bool,
    pub projects_is_dir: bool,
    pub events_exists: bool,
    pub tasks_exists: bool,
}

/// The health map of a vault: `.`, `notes`, `projects`, `events.yaml`, `tasks.md`, each
/// with whether it is present.
pub open spec fn structure_of(probe: StructureProbe) -> Seq<(Seq<char>, bool)> {
    seq![
        (seq!['.'], probe.root_is_dir),
        (notes_name(), probe.notes_is_dir),
        (projects_name(), probe.projects_is_dir),
        (events_name(), probe.events_exists),
        (tasks_name(), probe.tasks_exists),
    ]
}

/// The value under `key` in a health map, `false` when absent.
pub open spec fn structure_entry(m: Seq<(Seq<char>, bool)>, key: Seq<char>) -> bool
    decreases m.len(),
{
    if m.len() == 0 {
        false
    } else if m[0].0 == key {
        m[0].1
    } else {
        structure_entry(m.drop_first(), key)
    }
}

/// A vault is valid when its health map reports `.`, `events.yaml` and `tasks.md`.
pub open spec fn valid_vault(probe: StructureProbe) -> bool {
    let m = structure_of(probe);
    structure_entry(m, seq!['.']) && structure_entry(m, events_name()) && structure_entry(
        m,
        tasks_name(),
    )
}

pub fn verify_structure(probe: &StructureProbe) -> (r: Vec<(String, bool)>)
    ensures
        r@.map_values(|e: (String, bool)| (e.0@, e.1)) == structure_of(*probe),
{
    let s0 = string_of(&vec!['.']);
    let s1 = string_of(&vec!['n', 'o', 't', 'e', 's']);
    let s2 = string_of(&vec!['p', 'r', 'o', 'j', 'e', 'c', 't', 's']);
    let s3 = string_of(&vec!['e', 'v', 'e', 'n', 't', 's', '.', 'y', 'a', 'm', 'l']);
    let s4 = string_of(&vec!['t', 'a', 's', 'k', 's', '.', 'm', 'd']);
    assert(s0@ =~= seq!['.']);
    assert(s1@ =~= notes_name());
    assert(s2@ =~= projects_name());
    assert(s3@ =~= events_name());
    assert(s4@ =~= tasks_name());
    let mut r: Vec<(String, bool)> = Vec::new();
    r.push((s0, probe.root_is_dir));
    r.push((s1, probe.notes_is_dir));
    r.push((s2, probe.projects_is_dir));
    r.push((s3, probe.events_exists));
    r.push((s4, probe.tasks_exists));
    assert(r@.map_values(|e: (String, bool)| (e.0@, e.1)) =~= structure_of(*probe));
    r
}

/// Whether the probed directory is a valid vault.
pub fn is_valid_vault(probe: &StructureProbe) -> (b: bool)
    ensures
        b == valid_vault(*probe),
{
    let m = verify_structure(probe);
    proof {
        reveal_strlit(".");
        reveal_strlit("events.yaml");
        reveal_strlit("tasks.md");
        assert("."@ =~= seq!['.']);
        assert("events.yaml"@ =~= events_name());
        assert("tasks.md"@ =~= tasks_name());
    }
    lookup_structure(&m, ".") && lookup_structure(&m, "events.yaml") && lookup_structure(
        &m,
        "tasks.md",
    )
}

fn lookup_structure(m: &Vec<(String, bool)>, key: &str) -> (b: bool)
    ensures
        b == structure_entry(m@.map_values(|e: (String, bool)| (e.0@, e.1)), key@),
{
    let ghost mv = m@.map_values(|e: (String, bool)| (e.0@, e.1));
    let mut k: usize = 0;
    assert(mv.skip(0) == mv);
    while k < m.len()
        invariant
            k <= m.len(),
            mv == m@.map_values(|e: (String, bool)| (e.0@, e.1)),
            structure_entry(mv, key@) == structure_entry(mv.skip(k as int), key@),
        decreases m.len() - k,
    {
        assert(mv.skip(k as int)[0] == mv[k as int]);
        assert(mv.skip(k as int).drop_first() == mv.skip(k + 1));
        if string_eq(&m[k].0, key) {
            return m[k].1;
        }
        k = k + 1;
    }
    false
}

/// The HTML-encoded space.
pub open spec fn encoded_space() -> Seq<char> {
    seq!['&', '#', 'x', '2', '0', ';']
}

/// What `sanitize_content` makes of `c`: encoded spaces decoded, trailing whitespace
/// removed from every line, lines joined by `'\n'`, and a final `'\n'` kept.
pub open spec fn sanitized(c: Seq<char>) -> Seq<char> {
    let r = replace_seq(c, encoded_space(), seq![' ']);
    let body = join_seq(lines_of(r).map_values(|l: Seq<char>| trim_end_seq(l)), seq!['\n']);
    if has_suffix(r, seq!['\n']) {
        body.push('\n')
    } else {
        body
    }
}

/// Removes HTML-encoded spaces and strips trailing whitespace from each line.
pub fn sanitize_content(content: &str) -> (r: String)
    ensures
        r@ == sanitized(content@),
{
    let v = chars_of(content);
    let pat = vec!['&', '#', 'x', '2', '0', ';'];
    let rep = vec![' '];
    assert(pat@ == encoded_space());
    assert(rep@ == seq![' ']);
    let c = replace_chars(&v, &pat, &rep);
    let lines = lines_chars(&c);
    let mut trimmed: Vec<Vec<char>> = Vec::new();
    let mut i: usize = 0;
    while i < lines.len()
        invariant
            i <= lines.len(),
            views(trimmed@) == views(lines@).take(i as int).map_values(
                |l: Seq<char>| trim_end_seq(l),
            ),
        decreases lines.len() - i,
    {
        let t = trim_end_chars(&lines[i]);
        let ghost old_t = trimmed@;
        let ghost tv = t@;
        trimmed.push(t);
        assert(views(trimmed@) =~= views(old_t).push(tv));
        assert(views(lines@).take(i + 1).map_values(|l: Seq<char>| trim_end_seq(l))
            =~= views(lines@).take(i as int).map_values(|l: Seq<char>| trim_end_seq(l)).push(tv));
        i = i + 1;
    }
    assert(views(lines@).take(lines@.len() as int) == views(lines@));
    let nl = vec!['\n'];
    assert(nl@ == seq!['\n']);
    assert(views(trimmed@) == lines_of(c@).map_values(|l: Seq<char>| trim_end_seq(l)));
    let mut out = join_chars(&trimmed, &nl);
    if ends_with(&c, &nl) {
        out.push('\n');
    }
    string_of(&out)
}

/// The string items of a list, in order (non-strings are `None`).
pub open spec fn string_items_spec(items: Seq<Option<String>>) -> Seq<Seq<char>>
    decreases items.len(),
{
    if items.len() == 0 {
        Seq::empty()
    } else {
        let rest = string_items_spec(items.drop_last());
        match items.last() {
            Some(s) => rest.push(s@),
            None => rest,
        }
    }
}

/// The strings of a front-matter list such as `event_ids` or `project_ids`; an absent
/// or non-list value gives no ids.
pub fn frontmatter_ids(items: &Option<Vec<Option<String>>>) -> (r: Vec<String>)
    ensures
        strs(r@) == (match items {
            Some(v) => string_items_spec(v@),
            None => Seq::empty(),
        }),
{
    let mut r: Vec<String> = Vec::new();
    match items {
        None => {
            assert(strs(r@) =~= Seq::<Seq<char>>::empty());
            r
        },
        Some(v) => {
            let mut i: usize = 0;
            assert(v@.take(0) == Seq::<Option<String>>::empty());
            while i < v.len()
                invariant
                    i <= v.len(),
                    strs(r@) == string_items_spec(v@.take(i as int)),
                decreases v.len() - i,
            {
                assert(v@.take(i + 1).drop_last() == v@.take(i as int));
                let ghost old_r = r@;
                match &v[i] {
                    Some(s) => {
                        r.push(s.clone());
                        assert(strs(r@) =~= strs(old_r).push(s@));
                    },
                    None => {},
                }
                i = i + 1;
            }
            assert(v@.take(v@.len() as int) == v@);
            r
        },
    }
}

/// The first ten string entries of the stored recent-vault list.
pub fn recent_from_entries(entries: &Option<Vec<Option<String>>>) -> (r: Vec<String>)
    ensures
        strs(r@) == (match entries {
            Some(v) => string_items_spec(v@),
            None => Seq::empty(),
        }).take(
            if (match entries {
                Some(v) => string_items_spec(v@),
                None => Seq::empty(),
            }).len() < 10 {
                (match entries {
                    Some(v) => string_items_spec(v@),
                    None => Seq::empty(),
                }).len() as int
            } else {
                10
            },
        ),
{
    let all = frontmatter_ids(entries);
    let mut r: Vec<String> = Vec::new();
    let mut i: usize = 0;
    while i < all.len() && i < 10
        invariant
            i <= all.len(),
            i <= 10,
            strs(r@) == strs(all@).take(i as int),
        decreases all.len() - i,
    {
        let ghost old_r = r@;
        r.push(all[i].clone());
        proof {
            lemma_strs_push(old_r, all@[i as int]);
            lemma_strs_take_push(all@, i as int);
        }
        i = i + 1;
    }
    r
}

/// The strings of a JSON array, in order; other items left out.
pub open spec fn json_strings(xs: Seq<JsonValue>) -> Seq<Seq<char>>
    decreases xs.len(),
{
    if xs.len() == 0 {
        Seq::empty()
    } else {
        let rest = json_strings(xs.drop_last());
        match xs.last() {
            JsonValue::Str(s) => rest.push(s@),
            _ => rest,
        }
    }
}

/// The strings of the `recent` array of a parsed `vaults.json`; none when the text does
/// not parse or has no such array.
pub open spec fn recent_strings(doc: Option<JsonValue>) -> Seq<Seq<char>> {
    match doc {
        Some(d) => match member(d, "recent"@) {
            Some(JsonValue::Array(xs)) => json_strings(xs@),
            _ => Seq::empty(),
        },
        None => Seq::empty(),
    }
}

/// Reads the text of `vaults.json` into its recent-vault list: the first ten strings of
/// its `recent` array.
pub fn recent_vaults_of(text: &str) -> (r: Vec<String>)
    ensures
        strs(r@) == recent_strings(json_document(text@)).take(
            if recent_strings(json_document(text@)).len() < 10 {
                recent_strings(json_document(text@)).len() as int
            } else {
                10
            },
        ),
{
    let doc = parse_json(text);
    let entries: Option<Vec<Option<String>>> = match &doc {
        Some(d) => match get_member(d, "recent") {
            Some(JsonValue::Array(xs)) => {
                let mut items: Vec<Option<String>> = Vec::new();
                let mut i: usize = 0;
                while i < xs.len()
                    invariant
                        i <= xs.len(),
                        string_items_spec(items@) == json_strings(xs@.take(i as int)),
                    decreases xs.len() - i,
                {
                    let ghost old = items@;
                    let t = match &xs[i] {
                        JsonValue::Str(s) => Some(s.clone()),
                        _ => None,
                    };
                    items.push(t);
                    assert(items@.drop_last() =~= old);
                    assert(xs@.take(i + 1).drop_last() =~= xs@.take(i as int));
                    assert(xs@.take(i + 1).last() == xs@[i as int]);
                    i = i + 1;
                }
                assert(xs@.take(xs@.len() as int) =~= xs@);
                Some(items)
            },
            _ => None,
        },
        None => None,
    };
    recent_from_entries(&entries)
}

/// The recent-vault list after `vault` was opened: `vault` first, its earlier entries
/// removed, at most ten entries.
/// The test that keeps every path but `vault`.
pub open spec fn other_than(vault: Seq<char>) -> spec_fn(Seq<char>) -> bool {
    |p: Seq<char>| p != vault
}

pub open spec fn pushed_recent(recent: Seq<Seq<char>>, vault: Seq<char>) -> Seq<Seq<char>> {
    let kept = seq![vault] + recent.filter(other_than(vault));
    kept.take(if kept.len() < 10 { kept.len() as int } else { 10 })
}

pub fn push_recent_vault(recent: &Vec<String>, vault: &str) -> (r: Vec<String>)
    ensures
        strs(r@) == pushed_recent(strs(recent@), vault@),
{
    let mut kept: Vec<String> = Vec::new();
    kept.push(string_of(&chars_of(vault)));
    let ghost f = other_than(vault@);
    let mut i: usize = 0;
    assert(strs(recent@).take(0) == Seq::<Seq<char>>::empty());
    while i < recent.len()
        invariant
            i <= recent.len(),
            f == other_than(vault@),
            strs(kept@) == seq![vault@] + strs(recent@).take(i as int).filter(f),
        decreases recent.len() - i,
    {
        let ghost sr = strs(recent@);
        assert(sr.take(i + 1).drop_last() == sr.take(i as int));
        reveal_with_fuel(Seq::filter, 1);
        let ghost old_k = kept@;
        let eq = string_eq(&recent[i], vault);
        if !eq {
            kept.push(recent[i].clone());
            assert(strs(kept@) =~= strs(old_k).push(recent@[i as int]@));
        }
        i = i + 1;
    }
    assert(strs(recent@).take(recent@.len() as int) == strs(recent@));
    let mut r: Vec<String> = Vec::new();
    let mut j: usize = 0;
    while j < kept.len() && j < 10
        invariant
            j <= kept.len(),
            j <= 10,
            strs(r@) == strs(kept@).take(j as int),
        decreases kept.len() - j,
    {
        let ghost old_r = r@;
        r.push(kept[j].clone());
        proof {
            lemma_strs_push(old_r, kept@[j as int]);
            lemma_strs_take_push(kept@, j as int);
        }
        j = j + 1;
    }
    r
}

/// Equality of a `String` and a string slice by their characters.
pub fn string_eq(a: &String, b: &str) -> (r: bool)
    ensures
        r == (a@ == b@),
{
    let x = chars_of(a.as_str());
    let y = chars_of(b);
    if x.len() != y.len() {
        return false;
    }
    assert(x@.take(y@.len() as int) =~= x@);
    let r = starts_with(&x, &y);
    assert(r ==> x@.take(y@.len() as int) == x@);
    r
}

} // verus!

verus! {

/// The sum over `ls` of each line's byte length plus one: the byte offset reached after
/// these lines when each is counted with one byte for its line break.
pub open spec fn line_bytes_plus_one(ls: Seq<Seq<char>>) -> nat
    decreases ls.len(),
{
    if ls.len() == 0 {
        0
    } else {
        line_bytes_plus_one(ls.drop_last()) + byte_len(ls.last()) + 1
    }
}

pub open spec fn fence() -> Seq<char> {
    seq!['-', '-', '-']
}

/// A line that closes front matter: `---` followed only by whitespace.
pub open spec fn is_fence_line(l: Seq<char>) -> bool {
    trim_end_seq(l) == fence()
}

/// Index of the first fence line, if any.
pub open spec fn first_fence(ls: Seq<Seq<char>>) -> Option<int> {
    if exists|i: int|
        0 <= i < ls.len() && is_fence_line(ls[i]) && forall|j: int|
            0 <= j < i ==> !is_fence_line(#[trigger] ls[j]) {
        Some(
            choose|i: int|
                0 <= i < ls.len() && is_fence_line(ls[i]) && forall|j: int|
                    0 <= j < i ==> !is_fence_line(#[trigger] ls[j]),
        )
    } else {
        None
    }
}

/// The sum over `ps` of each piece's length plus one: the number of characters before
/// the piece that follows them, each counted with its line break.
pub open spec fn chars_plus_one(ps: Seq<Seq<char>>) -> nat
    decreases ps.len(),
{
    if ps.len() == 0 {
        0
    } else {
        chars_plus_one(ps.drop_last()) + ps.last().len() + 1
    }
}

/// Byte offset where the first fence line of `s` starts (lines split at `'\n'`).
pub open spec fn fence_offset(s: Seq<char>) -> Option<int> {
    let ps = split_pieces(s, '\n');
    match first_fence(ps) {
        Some(i) => Some(line_bytes_plus_one(ps.take(i)) as int),
        None => None,
    }
}

/// Character offset where the first fence line of `s` starts.
pub open spec fn fence_start(s: Seq<char>) -> Option<int> {
    let ps = split_pieces(s, '\n');
    match first_fence(ps) {
        Some(i) => Some(chars_plus_one(ps.take(i)) as int),
        None => None,
    }
}

pub(crate) proof fn lemma_first_fence_is(ls: Seq<Seq<char>>, i: int)
    requires
        0 <= i < ls.len(),
        is_fence_line(ls[i]),
        forall|j: int| 0 <= j < i ==> !is_fence_line(#[trigger] ls[j]),
    ensures
        first_fence(ls) == Some(i),
{
    let k = choose|k: int|
        0 <= k < ls.len() && is_fence_line(ls[k]) && forall|j: int|
            0 <= j < k ==> !is_fence_line(#[trigger] ls[j]);
    assert(0 <= k < ls.len() && is_fence_line(ls[k]) && forall|j: int|
        0 <= j < k ==> !is_fence_line(#[trigger] ls[j]));
    if k < i {
        assert(!is_fence_line(ls[k]));
    } else if k > i {
        assert(!is_fence_line(ls[i]));
    }
}

pub(crate) proof fn lemma_lbp_pieces(s: Seq<char>)
    ensures
        line_bytes_plus_one(split_pieces(s, '\n')) == byte_len(s) + 1,
    decreases s.len(),
{
    if s.len() > 0 {
        lemma_lbp_pieces(s.drop_last());
        lemma_pieces_nonempty(s.drop_last(), '\n');
        let p = split_pieces(s.drop_last(), '\n');
        let c = s.last();
        assert(byte_len(s) == byte_len(s.drop_last()) + utf8_len(c));
        assert(line_bytes_plus_one(p) == line_bytes_plus_one(p.drop_last()) + byte_len(p.last())
            + 1);
        if c == '\n' {
            let q = p.push(Seq::<char>::empty());
            assert(split_pieces(s, '\n') == q);
            assert(q.drop_last() == p);
            assert(byte_len(Seq::<char>::empty()) == 0);
            assert(line_bytes_plus_one(q) == line_bytes_plus_one(p) + 1);
            assert(utf8_len('\n') == 1);
        } else {
            let q = p.update(p.len() - 1, p.last().push(c));
            assert(split_pieces(s, '\n') == q);
            assert(q.drop_last() == p.drop_last());
            assert(p.last().push(c).drop_last() == p.last());
            assert(byte_len(p.last().push(c)) == byte_len(p.last()) + utf8_len(c));
            assert(line_bytes_plus_one(q) == line_bytes_plus_one(q.drop_last()) + byte_len(q.last())
                + 1);
        }
    } else {
        let p = split_pieces(s, '\n');
        assert(p == seq![Seq::<char>::empty()]);
        assert(p.drop_last().len() == 0);
        assert(line_bytes_plus_one(p.drop_last()) == 0);
        assert(byte_len(p.last()) == 0);
    }
}

pub(crate) proof fn lemma_cpo_pieces(s: Seq<char>)
    ensures
        chars_plus_one(split_pieces(s, '\n')) == s.len() + 1,
    decreases s.len(),
{
    if s.len() > 0 {
        lemma_cpo_pieces(s.drop_last());
        lemma_pieces_nonempty(s.drop_last(), '\n');
        let p = split_pieces(s.drop_last(), '\n');
        let c = s.last();
        if c == '\n' {
            let q = p.push(Seq::<char>::empty());
            assert(split_pieces(s, '\n') == q);
            assert(q.drop_last() == p);
            assert(chars_plus_one(q) == chars_plus_one(p) + 1);
        } else {
            let q = p.update(p.len() - 1, p.last().push(c));
            assert(split_pieces(s, '\n') == q);
            assert(q.drop_last() == p.drop_last());
            assert(q.last() == p.last().push(c));
            assert(chars_plus_one(p) == chars_plus_one(p.drop_last()) + p.last().len() + 1);
            assert(chars_plus_one(q) == chars_plus_one(q.drop_last()) + q.last().len() + 1);
        }
    } else {
        let p = split_pieces(s, '\n');
        assert(p == seq![Seq::<char>::empty()]);
        assert(p.drop_last().len() == 0);
        assert(chars_plus_one(p.drop_last()) == 0);
        assert(chars_plus_one(p) == chars_plus_one(p.drop_last()) + p.last().len() + 1);
    }
}

proof fn lemma_cpo_take(ls: Seq<Seq<char>>, i: int)
    requires
        0 <= i <= ls.len(),
    ensures
        chars_plus_one(ls.take(i)) <= chars_plus_one(ls),
    decreases ls.len() - i,
{
    if i < ls.len() {
        lemma_cpo_take(ls, i + 1);
        assert(ls.take(i + 1).drop_last() == ls.take(i));
    } else {
        assert(ls.take(i) == ls);
    }
}

proof fn lemma_lbp_take(ls: Seq<Seq<char>>, i: int)
    requires
        0 <= i <= ls.len(),
    ensures
        line_bytes_plus_one(ls.take(i)) <= line_bytes_plus_one(ls),
    decreases ls.len() - i,
{
    if i < ls.len() {
        lemma_lbp_take(ls, i + 1);
        assert(ls.take(i + 1).drop_last() == ls.take(i));
    } else {
        assert(ls.take(i) == ls);
    }
}

proof fn lemma_byte_len_skip(s: Seq<char>, k: int)
    requires
        0 <= k <= s.len(),
    ensures
        byte_len(s.skip(k)) <= byte_len(s),
{
    lemma_byte_len_concat(s.take(k), s.skip(k));
    assert(s.take(k) + s.skip(k) == s);
}

/// Byte length of the characters in `v`.
fn bytes_of(v: &Vec<char>) -> (n: usize)
    requires
        byte_len(v@) <= usize::MAX,
    ensures
        n == byte_len(v@),
{
    let mut n: usize = 0;
    let mut i: usize = 0;
    assert(v@.take(0) == Seq::<char>::empty());
    while i < v.len()
        invariant
            i <= v.len(),
            byte_len(v@) <= usize::MAX,
            n == byte_len(v@.take(i as int)),
        decreases v.len() - i,
    {
        proof {
            lemma_byte_len_take_mono(v@, i + 1, v@.len() as int);
            assert(v@.take(v@.len() as int) == v@);
            assert(v@.take(i + 1).drop_last() == v@.take(i as int));
        }
        n = n + char_utf8_len(v[i]);
        i = i + 1;
    }
    assert(v@.take(v@.len() as int) == v@);
    n
}

/// Byte offset where the first line of `s` that is `---` up to trailing whitespace
/// starts.
pub fn find_frontmatter_close(s: &str) -> (r: Option<usize>)
    requires
        byte_len(s@) < usize::MAX,
    ensures
        match fence_offset(s@) {
            Some(b) => r matches Some(x) && x == b,
            None => r is None,
        },
{
    let v = chars_of(s);
    let ls = split_chars(&v, '\n');
    let ghost lv = split_pieces(s@, '\n');
    proof {
        lemma_lbp_pieces(s@);
    }
    let f = vec!['-', '-', '-'];
    assert(f@ == fence());
    let mut pos: usize = 0;
    let mut i: usize = 0;
    assert(lv.take(0) == Seq::<Seq<char>>::empty());
    while i < ls.len()
        invariant
            i <= ls.len(),
            views(ls@) == lv,
            lv == split_pieces(s@, '\n'),
            f@ == fence(),
            line_bytes_plus_one(lv) == byte_len(s@) + 1,
            byte_len(s@) < usize::MAX,
            pos == line_bytes_plus_one(lv.take(i as int)),
            forall|j: int| 0 <= j < i ==> !is_fence_line(#[trigger] lv[j]),
        decreases ls.len() - i,
    {
        let t = trim_end_chars(&ls[i]);
        assert(lv[i as int] == ls@[i as int]@);
        if t.len() == 3 && starts_with(&t, &f) {
            assert(t@.take(3) == t@);
            assert(is_fence_line(lv[i as int]));
            proof {
                lemma_first_fence_is(lv, i as int);
            }
            return Some(pos);
        }
        proof {
            if is_fence_line(lv[i as int]) {
                assert(t@ == fence());
                assert(t@.take(3) == fence());
            }
            lemma_lbp_take(lv, i + 1);
            assert(lv.take(i + 1).drop_last() == lv.take(i as int));
            lemma_byte_len_ge_len(ls@[i as int]@);
        }
        let n = bytes_of(&ls[i]);
        pos = pos + n + 1;
        i = i + 1;
    }
    assert(first_fence(lv) is None);
    None
}

/// Character offset where the first fence line of `v` starts.
fn fence_start_chars(v: &Vec<char>) -> (r: Option<usize>)
    ensures
        match fence_start(v@) {
            Some(k) => r matches Some(x) && x == k,
            None => r is None,
        },
{
    let ls = split_chars(v, '\n');
    let ghost lv = split_pieces(v@, '\n');
    proof {
        lemma_cpo_pieces(v@);
    }
    let f = vec!['-', '-', '-'];
    assert(f@ == fence());
    let mut pos: usize = 0;
    let mut i: usize = 0;
    assert(lv.take(0) == Seq::<Seq<char>>::empty());
    while i < ls.len()
        invariant
            i <= ls.len(),
            views(ls@) == lv,
            lv == split_pieces(v@, '\n'),
            f@ == fence(),
            chars_plus_one(lv) == v@.len() + 1,
            pos == chars_plus_one(lv.take(i as int)),
            forall|j: int| 0 <= j < i ==> !is_fence_line(#[trigger] lv[j]),
        decreases ls.len() - i,
    {
        let t = trim_end_chars(&ls[i]);
        assert(lv[i as int] == ls@[i as int]@);
        if t.len() == 3 && starts_with(&t, &f) {
            assert(t@.take(3) == t@);
            assert(is_fence_line(lv[i as int]));
            proof {
                lemma_first_fence_is(lv, i as int);
            }
            return Some(pos);
        }
        proof {
            if is_fence_line(lv[i as int]) {
                assert(t@ == fence());
                assert(t@.take(3) == fence());
            }
        }
        if i + 1 == ls.len() {
            assert(first_fence(lv) is None);
            return None;
        }
        proof {
            lemma_cpo_take(lv, i + 2);
            assert(lv.take(i + 1).drop_last() == lv.take(i as int));
            assert(lv.take(i + 2).drop_last() == lv.take(i + 1));
            assert(lv.take(i + 1).last() == ls@[i as int]@);
            assert(chars_plus_one(lv.take(i + 1)) == pos + ls@[i as int]@.len() + 1);
            assert(chars_plus_one(lv.take(i + 2)) == chars_plus_one(lv.take(i + 1)) + lv.take(i + 2).last().len() + 1);
            assert(ls@[i as int]@.len() == ls[i as int].len());
            assert(pos + ls[i as int].len() + 1 <= v.len());
        }
        pos = pos + ls[i].len() + 1;
        i = i + 1;
    }
    assert(first_fence(lv) is None);
    None
}

/// The text after an opening `---` line: `c` must start with `---` followed by `\n`
/// or `\r\n`.
pub open spec fn after_open_fence(c: Seq<char>) -> Option<Seq<char>> {
    if !has_prefix(c, fence()) {
        None
    } else {
        let a = c.skip(3);
        if has_prefix(a, seq!['\n']) {
            Some(a.skip(1))
        } else if has_prefix(a, seq!['\r', '\n']) {
            Some(a.skip(2))
        } else {
            None
        }
    }
}

/// The YAML text and the body of `c`, when `c` opens with a `---` line and a later
/// fence line closes the YAML text; the body starts after the closing `---` and one
/// line break.
pub open spec fn frontmatter_split(c: Seq<char>) -> Option<(Seq<char>, Seq<char>)> {
    match after_open_fence(c) {
        None => None,
        Some(a) => match fence_start(a) {
            None => None,
            Some(k) => {
                let rest = a.skip(k);
                let skip_n: int = if has_prefix(rest, seq!['-', '-', '-', '\n']) {
                    4
                } else if has_prefix(rest, seq!['-', '-', '-', '\r', '\n']) {
                    5
                } else if has_prefix(rest, fence()) {
                    3
                } else {
                    0
                };
                Some((a.take(k), rest.skip(skip_n)))
            },
        },
    }
}

fn after_open_chars(v: &Vec<char>) -> (r: Option<Vec<char>>)
    ensures
        match after_open_fence(v@) {
            Some(a) => r matches Some(x) && x@ == a,
            None => r is None,
        },
        r matches Some(x) ==> byte_len(x@) <= byte_len(v@),
{
    let f = vec!['-', '-', '-'];
    assert(f@ == fence());
    if !starts_with(v, &f) {
        return None;
    }
    let a = sub_chars(v, 3, v.len());
    assert(a@ == v@.skip(3));
    let nl = vec!['\n'];
    let crlf = vec!['\r', '\n'];
    if starts_with(&a, &nl) {
        assert(nl@ == seq!['\n']);
        let r = sub_chars(&a, 1, a.len());
        assert(r@ == a@.skip(1));
        proof {
            lemma_byte_len_skip(v@, 3);
            lemma_byte_len_skip(a@, 1);
        }
        Some(r)
    } else if starts_with(&a, &crlf) {
        assert(nl@ == seq!['\n']);
        assert(crlf@ == seq!['\r', '\n']);
        let r = sub_chars(&a, 2, a.len());
        assert(r@ == a@.skip(2));
        proof {
            lemma_byte_len_skip(v@, 3);
            lemma_byte_len_skip(a@, 2);
        }
        Some(r)
    } else {
        assert(nl@ == seq!['\n']);
        assert(crlf@ == seq!['\r', '\n']);
        None
    }
}

/// The YAML front matter text and the markdown body of `content` (the structural part
/// of front-matter parsing; the YAML text itself is parsed elsewhere).
pub fn split_frontmatter(content: &str) -> (r: Option<(String, String)>)
    ensures
        match frontmatter_split(content@) {
            Some((y, b)) => r matches Some((ry, rb)) && ry@ == y && rb@ == b,
            None => r is None,
        },
{
    let v = chars_of(content);
    let a = match after_open_chars(&v) {
        None => return None,
        Some(a) => a,
    };
    let k = match fence_start_chars(&a) {
        None => return None,
        Some(k) => k,
    };
    proof {
        lemma_cpo_pieces(a@);
        let ps = split_pieces(a@, '\n');
        let i = first_fence(ps)->0;
        lemma_cpo_take(ps, i + 1);
        assert(ps.take(i + 1).drop_last() == ps.take(i));
    }
    let yaml = sub_chars(&a, 0, k);
    let rest = sub_chars(&a, k, a.len());
    assert(yaml@ == a@.take(k as int));
    assert(rest@ == a@.skip(k as int));
    let p4 = vec!['-', '-', '-', '\n'];
    let p5 = vec!['-', '-', '-', '\r', '\n'];
    let p3 = vec!['-', '-', '-'];
    assert(p4@ == seq!['-', '-', '-', '\n']);
    assert(p5@ == seq!['-', '-', '-', '\r', '\n']);
    assert(p3@ == fence());
    let skip_n: usize = if starts_with(&rest, &p4) {
        4
    } else if starts_with(&rest, &p5) {
        5
    } else if starts_with(&rest, &p3) {
        3
    } else {
        0
    };
    let body = sub_chars(&rest, skip_n, rest.len());
    assert(body@ == rest@.skip(skip_n as int));
    Some((string_of(&yaml), string_of(&body)))
}

/// `yaml` with every leading `---\n` removed and trailing whitespace trimmed, framed
/// between `---` lines, then a blank line and `body` without its leading `'\n'`s.
pub open spec fn framed_frontmatter(yaml: Seq<char>, body: Seq<char>) -> Seq<char> {
    seq!['-', '-', '-', '\n'] + framed_yaml(yaml) + seq!['\n', '-', '-', '-', '\n', '\n'] + framed_body(
        body,
    )
}

/// The YAML text as it is framed: leading `---\n`s removed, trailing whitespace trimmed.
pub open spec fn framed_yaml(yaml: Seq<char>) -> Seq<char> {
    trim_end_seq(strip_all_prefix(yaml, seq!['-', '-', '-', '\n']))
}

/// The body as it is framed: leading `'\n'`s removed.
pub open spec fn framed_body(body: Seq<char>) -> Seq<char> {
    strip_all_prefix(body, seq!['\n'])
}

/// `s` with all leading repetitions of `p` removed (`str::trim_start_matches`).
pub open spec fn strip_all_prefix(s: Seq<char>, p: Seq<char>) -> Seq<char>
    decreases s.len(),
{
    if p.len() > 0 && has_prefix(s, p) {
        strip_all_prefix(s.skip(p.len() as int), p)
    } else {
        s
    }
}

pub fn strip_all_prefix_chars(v: &Vec<char>, p: &Vec<char>) -> (r: Vec<char>)
    requires
        p.len() > 0,
    ensures
        r@ == strip_all_prefix(v@, p@),
{
    let mut i: usize = 0;
    assert(v@.skip(0) == v@);
    while matches_at(v, i, p)
        invariant
            i <= v.len(),
            p.len() > 0,
            strip_all_prefix(v@, p@) == strip_all_prefix(v@.skip(i as int), p@),
        decreases v.len() - i,
    {
        assert(v@.skip(i as int).take(p.len() as int) == v@.subrange(i as int, i + p.len()));
        assert(v@.skip(i as int).skip(p.len() as int) == v@.skip(i + p.len()));
        i = i + p.len();
    }
    if p.len() <= v.len() - i {
        assert(v@.skip(i as int).take(p.len() as int) == v@.subrange(i as int, i + p.len()));
    }
    sub_chars(v, i, v.len())
}

/// Frames serialised YAML front matter and a body into one file text.
pub fn frame_frontmatter(yaml: &str, body: &str) -> (r: String)
    ensures
        r@ == framed_frontmatter(yaml@, body@),
{
    let y = chars_of(yaml);
    let b = chars_of(body);
    let p = vec!['-', '-', '-', '\n'];
    let nl = vec!['\n'];
    assert(p@ == seq!['-', '-', '-', '\n']);
    assert(nl@ == seq!['\n']);
    let y1 = strip_all_prefix_chars(&y, &p);
    let y2 = trim_end_chars(&y1);
    let b1 = strip_all_prefix_chars(&b, &nl);
    let mut out = vec!['-', '-', '-', '\n'];
    append_chars(&mut out, &y2);
    let mid = vec!['\n', '-', '-', '-', '\n', '\n'];
    append_chars(&mut out, &mid);
    append_chars(&mut out, &b1);
    string_of(&out)
}

} // verus!

verus! {

/// Number of leading `'#'` characters of `t`.
pub open spec fn lead_hashes(t: Seq<char>) -> nat
    decreases t.len(),
{
    if t.len() > 0 && t[0] == '#' {
        1 + lead_hashes(t.drop_first())
    } else {
        0
    }
}

/// The heading text of a trimmed line that is a level-one heading: one `'#'` and a space.
pub open spec fn title_in_line(t: Seq<char>) -> Option<Seq<char>> {
    let n = lead_hashes(t);
    if n == 1 && n < t.len() && t[n as int] == ' ' {
        Some(trim_seq(t.skip((n + 1) as int)))
    } else {
        None
    }
}

/// The heading text of the first level-one heading line among `ls`.
pub open spec fn title_of_lines(ls: Seq<Seq<char>>) -> Option<Seq<char>>
    decreases ls.len(),
{
    if ls.len() == 0 {
        None
    } else {
        match title_in_line(trim_seq(ls[0])) {
            Some(x) => Some(x),
            None => title_of_lines(ls.drop_first()),
        }
    }
}

pub open spec fn untitled() -> Seq<char> {
    seq!['U', 'n', 't', 'i', 't', 'l', 'e', 'd']
}

/// The display title of a markdown body: its first `# H1` heading; without one, its first
/// six words joined by spaces; else `Untitled`.
pub open spec fn title_of(body: Seq<char>) -> Seq<char> {
    match title_of_lines(lines_of(body)) {
        Some(x) => x,
        None => {
            let w = words_of(body);
            let w6 = w.take(if w.len() < 6 { w.len() as int } else { 6 });
            if w6.len() == 0 {
                untitled()
            } else {
                join_seq(w6, seq![' '])
            }
        },
    }
}

fn count_lead_hashes(t: &Vec<char>) -> (n: usize)
    ensures
        n == lead_hashes(t@),
        n <= t.len(),
{
    let mut n: usize = 0;
    assert(t@.skip(0) == t@);
    while n < t.len() && t[n] == '#'
        invariant
            n <= t.len(),
            lead_hashes(t@) == n + lead_hashes(t@.skip(n as int)),
        decreases t.len() - n,
    {
        assert(t@.skip(n as int).drop_first() == t@.skip(n + 1));
        n = n + 1;
    }
    n
}

fn heading_of_line(line: &Vec<char>) -> (r: Option<Vec<char>>)
    ensures
        match title_in_line(trim_seq(line@)) {
            Some(x) => r matches Some(v) && v@ == x,
            None => r is None,
        },
{
    let t = trim_chars(line);
    let n = count_lead_hashes(&t);
    if n == 1 && n < t.len() && t[n] == ' ' {
        let rest = sub_chars(&t, n + 1, t.len());
        assert(rest@ == t@.skip(n + 1));
        Some(trim_chars(&rest))
    } else {
        None
    }
}

fn first_heading(ls: &Vec<Vec<char>>) -> (r: Option<Vec<char>>)
    ensures
        match title_of_lines(views(ls@)) {
            Some(x) => r matches Some(v) && v@ == x,
            None => r is None,
        },
{
    let mut i: usize = 0;
    assert(views(ls@).skip(0) == views(ls@));
    while i < ls.len()
        invariant
            i <= ls.len(),
            title_of_lines(views(ls@)) == title_of_lines(views(ls@).skip(i as int)),
        decreases ls.len() - i,
    {
        let ghost rest = views(ls@).skip(i as int);
        assert(rest[0] == ls@[i as int]@);
        assert(rest.drop_first() == views(ls@).skip(i + 1));
        match heading_of_line(&ls[i]) {
            Some(h) => {
                return Some(h);
            },
            None => {},
        }
        i = i + 1;
    }
    None
}

/// Extracts the display title of a markdown body: the first `# H1` heading, falling back
/// to the first six words, or `Untitled`.
pub fn extract_title(body: &str) -> (r: String)
    ensures
        r@ == title_of(body@),
{
    let v = chars_of(body);
    let ls = lines_chars(&v);
    if let Some(h) = first_heading(&ls) {
        return string_of(&h);
    }
    let w = words_chars(&v);
    let mut w6: Vec<Vec<char>> = Vec::new();
    let mut j: usize = 0;
    while j < w.len() && j < 6
        invariant
            j <= w.len(),
            j <= 6,
            views(w6@) == views(w@).take(j as int),
        decreases w.len() - j,
    {
        let x = sub_chars(&w[j], 0, w[j].len());
        assert(x@ == w@[j as int]@);
        let ghost old = w6@;
        w6.push(x);
        assert(views(w6@) =~= views(old).push(x@));
        assert(views(w@).take(j + 1) =~= views(w@).take(j as int).push(w@[j as int]@));
        j = j + 1;
    }
    if w6.len() == 0 {
        string_of(&vec!['U', 'n', 't', 'i', 't', 'l', 'e', 'd'])
    } else {
        let sp = vec![' '];
        assert(sp@ == seq![' ']);
        string_of(&join_chars(&w6, &sp))
    }
}

/// A line that a preview keeps: not a heading and not blank.
pub open spec fn keep_in_preview(l: Seq<char>) -> bool {
    !has_prefix(trim_start_seq(l), seq!['#']) && trim_seq(l).len() > 0
}

/// The kept lines of `body` joined by spaces and trimmed.
pub open spec fn preview_text(body: Seq<char>) -> Seq<char> {
    trim_seq(join_seq(lines_of(body).filter(|l: Seq<char>| keep_in_preview(l)), seq![' ']))
}

/// A plain-text preview of about 100 characters: the text when it has at most 100
/// characters, else its first 100 characters followed by `…`.
pub open spec fn preview_of(body: Seq<char>) -> Seq<char> {
    let t = preview_text(body);
    if t.len() <= 100 {
        t
    } else {
        t.take(100).push('\u{2026}')
    }
}

fn preview_chars(body: &str) -> (t: Vec<char>)
    ensures
        t@ == preview_text(body@),
{
    let v = chars_of(body);
    let ls = lines_chars(&v);
    let ghost f = |l: Seq<char>| keep_in_preview(l);
    let mut kept: Vec<Vec<char>> = Vec::new();
    let mut i: usize = 0;
    assert(views(ls@).take(0) == Seq::<Seq<char>>::empty());
    while i < ls.len()
        invariant
            i <= ls.len(),
            f == (|l: Seq<char>| keep_in_preview(l)),
            views(kept@) == views(ls@).take(i as int).filter(f),
        decreases ls.len() - i,
    {
        let ghost lv = views(ls@);
        assert(lv.take(i + 1).drop_last() == lv.take(i as int));
        assert(lv.take(i + 1).last() == ls@[i as int]@);
        reveal_with_fuel(Seq::filter, 1);
        let ts = trim_start_chars(&ls[i]);
        let tt = trim_chars(&ls[i]);
        let hash = vec!['#'];
        assert(hash@ == seq!['#']);
        if !starts_with(&ts, &hash) && tt.len() > 0 {
            let x = sub_chars(&ls[i], 0, ls[i].len());
            assert(x@ == ls@[i as int]@);
            let ghost old = kept@;
            kept.push(x);
            assert(views(kept@) =~= views(old).push(x@));
        }
        i = i + 1;
    }
    assert(views(ls@).take(ls@.len() as int) == views(ls@));
    let sp = vec![' '];
    assert(sp@ == seq![' ']);
    let joined = join_chars(&kept, &sp);
    trim_chars(&joined)
}

/// A plain-text preview of a markdown body: non-heading, non-blank lines joined by
/// spaces, trimmed, and when longer than 100 characters cut after the first 100, with
/// `…` appended.
pub fn body_preview(body: &str) -> (r: String)
    ensures
        r@ == preview_of(body@),
{
    let t = preview_chars(body);
    if t.len() <= 100 {
        string_of(&t)
    } else {
        let mut out = sub_chars(&t, 0, 100);
        out.push('\u{2026}');
        string_of(&out)
    }
}

} // verus!

verus! {

/// The vault to open at startup: the most recent one when it is still a valid vault
/// (`None`: fall back to the default vault).
pub fn resolve_startup_vault(recent: &Vec<String>, first_probe: &StructureProbe) -> (r: Option<String>)
    ensures
        match r {
            Some(p) => recent.len() > 0 && p@ == recent@[0]@ && first_probe.root_is_dir
                && first_probe.events_exists && first_probe.tasks_exists,
            None => recent.len() == 0 || !(first_probe.root_is_dir && first_probe.events_exists
                && first_probe.tasks_exists),
        },
{
    proof {
        crate::laws::law_valid_vault_by_structure(*first_probe);
    }
    if recent.len() > 0 && is_valid_vault(first_probe) {
        Some(recent[0].clone())
    } else {
        None
    }
}

/// The id lists that a new note's front matter records: each only when given and not
/// empty.
pub fn note_frontmatter_ids(ids: Option<Vec<String>>) -> (r: Option<Vec<String>>)
    ensures
        match ids {
            Some(v) => if v.len() > 0 {
                r == Some(v)
            } else {
                r is None
            },
            None => r is None,
        },
{
    match ids {
        Some(v) => if v.len() > 0 {
            Some(v)
        } else {
            None
        },
        None => None,
    }
}

} // verus!

verus! {

/// The entries of a YAML mapping whose keys are strings (tags taken off), as
/// `(key, value)` in order.
pub open spec fn string_entries(m: Seq<(YamlValue, YamlValue)>) -> Seq<(Seq<char>, YamlValue)>
    decreases m.len(),
{
    if m.len() == 0 {
        Seq::empty()
    } else {
        let rest = string_entries(m.drop_last());
        match str_of(m.last().0) {
            Some(k) => rest.push((k, m.last().1)),
            None => rest,
        }
    }
}

/// A front-matter map by the characters of its keys.
pub open spec fn entries_view(v: Seq<(String, YamlValue)>) -> Seq<(Seq<char>, YamlValue)> {
    v.map_values(|e: (String, YamlValue)| (e.0@, e.1))
}

/// The front matter of a file text as its string-keyed entries, and the body: when the
/// text opens with front matter that parses as a YAML mapping; otherwise no entries and
/// the whole text as body.
pub open spec fn frontmatter_of(c: Seq<char>) -> (Seq<(Seq<char>, YamlValue)>, Seq<char>) {
    match frontmatter_split(c) {
        Some((y, b)) => match yaml_document(y) {
            Some(YamlValue::Mapping(m)) => (string_entries(m@), b),
            _ => (Seq::empty(), c),
        },
        None => (Seq::empty(), c),
    }
}

fn string_keyed(m: Vec<(YamlValue, YamlValue)>) -> (r: Vec<(String, YamlValue)>)
    ensures
        entries_view(r@) == string_entries(m@),
{
    let mut m = m;
    let ghost orig = m@;
    let ghost mut taken: int = 0;
    let mut r: Vec<(String, YamlValue)> = Vec::new();
    assert(orig.take(0) =~= Seq::<(YamlValue, YamlValue)>::empty());
    assert(entries_view(r@) =~= Seq::<(Seq<char>, YamlValue)>::empty());
    while m.len() > 0
        invariant
            0 <= taken <= orig.len(),
            taken + m.len() == orig.len(),
            m@ == orig.skip(taken),
            entries_view(r@) == string_entries(orig.take(taken)),
        decreases m.len(),
    {
        let (k, v) = m.remove(0);
        assert(orig.take(taken + 1).drop_last() =~= orig.take(taken));
        assert(orig.take(taken + 1).last() == orig[taken]);
        assert(orig[taken] == (k, v));
        match as_text(&k) {
            Some(s) => {
                let ghost old_r = r@;
                let ghost sv = s@;
                r.push((s, v));
                assert(entries_view(r@) =~= entries_view(old_r).push((sv, v)));
            },
            None => {},
        }
        proof {
            taken = taken + 1;
        }
        assert(m@ =~= orig.skip(taken));
    }
    assert(orig.take(taken) =~= orig);
    r
}

/// Splits a file text into its front-matter map (the string-keyed entries of the YAML
/// mapping that opens it) and its markdown body; a text without such front matter is
/// all body.
pub fn parse_frontmatter(content: &str) -> (r: (Vec<(String, YamlValue)>, String))
    ensures
        entries_view(r.0@) == frontmatter_of(content@).0,
        r.1@ == frontmatter_of(content@).1,
{
    assert(entries_view(Seq::<(String, YamlValue)>::empty()) =~= Seq::<(Seq<char>, YamlValue)>::empty());
    match split_frontmatter(content) {
        Some((y, b)) => match parse_yaml(y.as_str()) {
            Some(YamlValue::Mapping(m)) => (string_keyed(m), b),
            _ => (Vec::new(), string_of(&chars_of(content))),
        },
        None => (Vec::new(), string_of(&chars_of(content))),
    }
}

/// The entry under `key` of a front-matter map (a later entry wins over an earlier one).
pub open spec fn fm_lookup(es: Seq<(Seq<char>, YamlValue)>, key: Seq<char>) -> Option<YamlValue>
    decreases es.len(),
{
    if es.len() == 0 {
        None
    } else if es.last().0 == key {
        Some(es.last().1)
    } else {
        fm_lookup(es.drop_last(), key)
    }
}

/// The strings of a YAML list (tags taken off), in order; other items left out.
pub open spec fn yaml_strings(xs: Seq<YamlValue>) -> Seq<Seq<char>>
    decreases xs.len(),
{
    if xs.len() == 0 {
        Seq::empty()
    } else {
        let rest = yaml_strings(xs.drop_last());
        match str_of(xs.last()) {
            Some(t) => rest.push(t),
            None => rest,
        }
    }
}

/// The strings listed under `key` in a front-matter map; none when the key is absent or
/// its value (tags taken off) is not a list.
pub open spec fn fm_list(es: Seq<(Seq<char>, YamlValue)>, key: Seq<char>) -> Seq<Seq<char>> {
    match fm_lookup(es, key) {
        Some(v) => match untagged(v) {
            YamlValue::List(xs) => yaml_strings(xs@),
            _ => Seq::empty(),
        },
        None => Seq::empty(),
    }
}

/// The string items of a front-matter list (`event_ids`, `project_ids`).
pub fn frontmatter_list(fm: &Vec<(String, YamlValue)>, key: &str) -> (r: Vec<String>)
    ensures
        strs(r@) == fm_list(entries_view(fm@), key@),
{
    let ghost es = entries_view(fm@);
    let mut k: usize = fm.len();
    assert(es.take(k as int) =~= es);
    while k > 0
        invariant
            k <= fm.len(),
            es == entries_view(fm@),
            fm_lookup(es, key@) == fm_lookup(es.take(k as int), key@),
        decreases k,
    {
        assert(es.take(k as int).last() == (fm@[k - 1].0@, fm@[k - 1].1));
        assert(es.take(k as int).drop_last() =~= es.take(k - 1));
        if string_eq(&fm[k - 1].0, key) {
            let mut r: Vec<String> = Vec::new();
            match untag(&fm[k - 1].1) {
                YamlValue::List(xs) => {
                    let mut i: usize = 0;
                    assert(xs@.take(0) =~= Seq::<YamlValue>::empty());
                    while i < xs.len()
                        invariant
                            i <= xs.len(),
                            strs(r@) == yaml_strings(xs@.take(i as int)),
                        decreases xs.len() - i,
                    {
                        assert(xs@.take(i + 1).drop_last() =~= xs@.take(i as int));
                        assert(xs@.take(i + 1).last() == xs@[i as int]);
                        match as_text(&xs[i]) {
                            Some(s) => {
                                let ghost old_r = r@;
                                r.push(s);
                                proof {
                                    lemma_strs_push(old_r, r@.last());
                                }
                            },
                            None => {},
                        }
                        i = i + 1;
                    }
                    assert(xs@.take(xs@.len() as int) =~= xs@);
                },
                _ => {
                    assert(strs(r@) =~= Seq::<Seq<char>>::empty());
                },
            }
            return r;
        }
        k = k - 1;
    }
    let r: Vec<String> = Vec::new();
    assert(strs(r@) =~= Seq::<Seq<char>>::empty());
    r
}

/// `m` is the YAML mapping of the front-matter entries `es`, in their order.
pub open spec fn is_mapping_of(m: YamlValue, es: Seq<(Seq<char>, YamlValue)>) -> bool {
    &&& m matches YamlValue::Mapping(v)
    &&& m->Mapping_0@.len() == es.len()
    &&& forall|i: int|
        0 <= i < es.len() ==> #[trigger] is_str(m->Mapping_0@[i].0, es[i].0) && m->Mapping_0@[i].1 == es[i].1
}

/// The printed YAML text, or nothing when printing fails.
pub open spec fn printed_or_empty(p: Option<Seq<char>>) -> Seq<char> {
    match p {
        Some(t) => t,
        None => Seq::empty(),
    }
}

/// A front-matter map and a body as one file text: the body alone when the map is empty,
/// else the map printed as a YAML mapping (its entries in order) framed above the body.
pub fn serialize_frontmatter(data: Vec<(String, YamlValue)>, body: &str) -> (r: String)
    ensures
        data@.len() == 0 ==> r@ == body@,
        data@.len() > 0 ==> exists|m: YamlValue|
            is_mapping_of(m, entries_view(data@)) && r@ == framed_frontmatter(
                printed_or_empty(yaml_printed(m)),
                body@,
            ),
{
    let ghost es = entries_view(data@);
    assert(es.len() == data@.len());
    if data.len() == 0 {
        return string_of(&chars_of(body));
    }
    let mut data = data;
    let mut items: Vec<(YamlValue, YamlValue)> = Vec::new();
    let ghost mut taken: int = 0;
    assert(es.skip(0) =~= es);
    while data.len() > 0
        invariant
            0 <= taken <= es.len(),
            taken + data@.len() == es.len(),
            items@.len() == taken,
            entries_view(data@) == es.skip(taken),
            forall|i: int| 0 <= i < taken ==> #[trigger] is_str(items@[i].0, es[i].0) && items@[i].1 == es[i].1,
        decreases data.len(),
    {
        let ghost before = data@;
        let (k, v) = data.remove(0);
        assert(es.skip(taken)[0] == (k@, v)) by {
            assert(entries_view(before)[0] == (before[0].0@, before[0].1));
        }
        assert(entries_view(data@) =~= es.skip(taken + 1)) by {
            assert(data@ =~= before.drop_first());
            assert(entries_view(before.drop_first()) =~= entries_view(before).drop_first());
            assert(es.skip(taken).drop_first() =~= es.skip(taken + 1));
        }
        items.push((YamlValue::Str(k), v));
        proof {
            taken = taken + 1;
        }
    }
    let m = YamlValue::Mapping(items);
    assert(is_mapping_of(m, es));
    let yaml = match print_yaml(&m) {
        Some(t) => t,
        None => string_of(&Vec::new()),
    };
    assert(yaml@ == printed_or_empty(yaml_printed(m)));
    frame_frontmatter(yaml.as_str(), body)
}

pub open spec fn event_ids_key() -> Seq<char> {
    seq!['e', 'v', 'e', 'n', 't', '_', 'i', 'd', 's']
}

pub open spec fn project_ids_key() -> Seq<char> {
    seq!['p', 'r', 'o', 'j', 'e', 'c', 't', '_', 'i', 'd', 's']
}

/// The event ids that a front-matter map lists under `event_ids`.
pub fn frontmatter_event_ids(fm: &Vec<(String, YamlValue)>) -> (r: Vec<String>)
    ensures
        strs(r@) == fm_list(entries_view(fm@), event_ids_key()),
{
    let key = string_of(&vec!['e', 'v', 'e', 'n', 't', '_', 'i', 'd', 's']);
    assert(key@ =~= event_ids_key());
    frontmatter_list(fm, key.as_str())
}

/// The project ids that a front-matter map lists under `project_ids`.
pub fn frontmatter_project_ids(fm: &Vec<(String, YamlValue)>) -> (r: Vec<String>)
    ensures
        strs(r@) == fm_list(entries_view(fm@), project_ids_key()),
{
    let key = string_of(&vec!['p', 'r', 'o', 'j', 'e', 'c', 't', '_', 'i', 'd', 's']);
    assert(key@ =~= project_ids_key());
    frontmatter_list(fm, key.as_str())
}

} // verus!
