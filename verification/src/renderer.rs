//! Markdown rendering: CommonMark + GFM to HTML, then every `@` / `#` reference wrapped
//! in a semantic `<span>`.

use vstd::prelude::*;
use crate::chars::{CharClass, class_has, in_class, run_end, run_end_of, unicode_decimal_digit};
use crate::text::{append_chars, byte_len, chars_of, string_of, sub_chars};
use crate::models::strs;
use crate::storage::{
    entries_view, event_ids_key, extract_title, fm_list, frontmatter_event_ids,
    frontmatter_of, frontmatter_project_ids, parse_frontmatter,
    project_ids_key, title_of,
};
use crate::yaml::YamlValue;

verus! {

/// A reference that the renderer recognises.
pub enum GeraRef {
    /// `@before[<offset>]:<target>`
    Before { offset: Seq<char>, target: Seq<char> },
    /// `@<date-time>`
    DateTime(Seq<char>),
    /// `@<event-id>`
    Event(Seq<char>),
    /// `#<project-id>`
    Project(Seq<char>),
}

pub open spec fn is_ascii_letter(c: char) -> bool {
    ('a' <= c && c <= 'z') || ('A' <= c && c <= 'Z')
}

pub open spec fn dg(t: Seq<char>, i: int) -> bool {
    0 <= i < t.len() && unicode_decimal_digit(t[i])
}

pub open spec fn before_prefix() -> Seq<char> {
    seq!['@', 'b', 'e', 'f', 'o', 'r', 'e', '[']
}

/// End of `\d{1,2}` followed by `stop` from `a`, leftmost-first.
pub open spec fn one_or_two_digits(t: Seq<char>, a: int, stop: char) -> Option<int> {
    if dg(t, a) && dg(t, a + 1) && a + 2 < t.len() && t[a + 2] == stop {
        Some(a + 2)
    } else if dg(t, a) && a + 1 < t.len() && t[a + 1] == stop {
        Some(a + 1)
    } else {
        None
    }
}

/// End of `\d{4}-\d{1,2}-\d{1,2}T\d{2}:\d{2}` starting at `a`.
pub open spec fn datetime_end(t: Seq<char>, a: int) -> Option<int> {
    if dg(t, a) && dg(t, a + 1) && dg(t, a + 2) && dg(t, a + 3) && a + 4 < t.len() && t[a + 4]
        == '-' {
        match one_or_two_digits(t, a + 5, '-') {
            Some(m) => match one_or_two_digits(t, m + 1, 'T') {
                Some(d) => if dg(t, d + 1) && dg(t, d + 2) && d + 3 < t.len() && t[d + 3] == ':'
                    && dg(t, d + 4) && dg(t, d + 5) {
                    Some(d + 6)
                } else {
                    None
                },
                None => None,
            },
            None => None,
        }
    } else {
        None
    }
}

/// The reference matched at `j`, leftmost-first over the four alternatives, with its end.
pub open spec fn gera_ref_at(t: Seq<char>, j: int) -> Option<(GeraRef, int)> {
    if !(0 <= j < t.len()) {
        None
    } else if t[j] == '@' {
        let q = run_end(t, j + 8, CharClass::Digit);
        let r = run_end(t, q + 4, CharClass::Target);
        if j + 8 <= t.len() && t.subrange(j, j + 8) == before_prefix() && q > j + 8 && q + 3 < t.len()
            && (t[q] == 'Y' || t[q] == 'M' || t[q] == 'W' || t[q] == 'd' || t[q] == 'h' || t[q]
            == 'm') && t[q + 1] == ']' && t[q + 2] == ':' && unicode_word_char_at(t, q + 3) {
            Some(
                (
                    GeraRef::Before { offset: t.subrange(j + 8, q + 1), target: t.subrange(q + 3, r) },
                    r,
                ),
            )
        } else {
            match datetime_end(t, j + 1) {
                Some(e) => Some((GeraRef::DateTime(t.subrange(j + 1, e)), e)),
                None => if j + 1 < t.len() && is_ascii_letter(t[j + 1]) {
                    let e = run_end(t, j + 2, CharClass::ProjectId);
                    Some((GeraRef::Event(t.subrange(j + 1, e)), e))
                } else {
                    None
                },
            }
        }
    } else if t[j] == '#' && j + 1 < t.len() && is_ascii_letter(t[j + 1]) {
        let e = run_end(t, j + 2, CharClass::ProjectId);
        Some((GeraRef::Project(t.subrange(j + 1, e)), e))
    } else {
        None
    }
}

pub open spec fn unicode_word_char_at(t: Seq<char>, i: int) -> bool {
    0 <= i < t.len() && in_class(CharClass::Word, t[i])
}

/// The `<span>` that stands for a reference.
pub open spec fn span_of(g: GeraRef) -> Seq<char> {
    match g {
        GeraRef::Before { offset, target } => "<span class=\"gera-ref gera-ref--before\" data-offset=\""@
            + offset + "\" data-target=\""@ + target + "\">@before["@ + offset + "]:"@ + target
            + "</span>"@,
        GeraRef::DateTime(dt) => "<span class=\"gera-ref gera-ref--datetime\" data-datetime=\""@
            + dt + "\">@"@ + dt + "</span>"@,
        GeraRef::Event(id) => "<span class=\"gera-ref gera-ref--event\" data-event=\""@ + id
            + "\">@"@ + id + "</span>"@,
        GeraRef::Project(id) => "<span class=\"gera-ref gera-ref--project\" data-project=\""@
            + id + "\">#"@ + id + "</span>"@,
    }
}

/// `t` from `j` on with every reference replaced by its span, left to right.
pub open spec fn with_refs(t: Seq<char>, j: int) -> Seq<char>
    decreases t.len() - j,
{
    if j < 0 || j >= t.len() {
        Seq::empty()
    } else {
        match gera_ref_at(t, j) {
            Some((g, e)) => if j < e <= t.len() {
                span_of(g) + with_refs(t, e)
            } else {
                Seq::empty()
            },
            None => seq![t[j]] + with_refs(t, j + 1),
        }
    }
}

fn dg_exec(t: &Vec<char>, i: usize) -> (b: bool)
    ensures
        b == dg(t@, i as int),
{
    i < t.len() && class_has(CharClass::Digit, t[i])
}

fn one_or_two_exec(t: &Vec<char>, a: usize, stop: char) -> (r: Option<usize>)
    requires
        a <= t.len(),
    ensures
        match one_or_two_digits(t@, a as int, stop) {
            Some(e) => r == Some(e as usize),
            None => r is None,
        },
{
    if a < t.len() && t.len() - a > 2 && dg_exec(t, a) && dg_exec(t, a + 1) && t[a + 2] == stop {
        Some(a + 2)
    } else if a < t.len() && t.len() - a > 1 && dg_exec(t, a) && t[a + 1] == stop {
        Some(a + 1)
    } else {
        None
    }
}

fn datetime_end_exec(t: &Vec<char>, a: usize) -> (r: Option<usize>)
    requires
        a <= t.len(),
    ensures
        match datetime_end(t@, a as int) {
            Some(e) => r == Some(e as usize) && e <= t.len(),
            None => r is None,
        },
{
    if !(t.len() - a > 4 && dg_exec(t, a) && dg_exec(t, a + 1) && dg_exec(t, a + 2) && dg_exec(
        t,
        a + 3,
    ) && t[a + 4] == '-') {
        return None;
    }
    let m = match one_or_two_exec(t, a + 5, '-') {
        Some(m) => m,
        None => return None,
    };
    let d = match one_or_two_exec(t, m + 1, 'T') {
        Some(d) => d,
        None => return None,
    };
    if t.len() - d > 5 && dg_exec(t, d + 1) && dg_exec(t, d + 2) && t[d + 3] == ':' && dg_exec(
        t,
        d + 4,
    ) && dg_exec(t, d + 5) {
        Some(d + 6)
    } else {
        None
    }
}

fn is_ascii_letter_exec(c: char) -> (b: bool)
    ensures
        b == is_ascii_letter(c),
{
    ('a' <= c && c <= 'z') || ('A' <= c && c <= 'Z')
}

fn lit(s: &str) -> (v: Vec<char>)
    ensures
        v@ == s@,
{
    chars_of(s)
}

fn push_span(out: &mut Vec<char>, t: &Vec<char>, g: &FoundGeraRef)
    requires
        g.wf(t@),
    ensures
        final(out)@ == old(out)@ + span_of(g.spec_ref(t@)),
{
    match g {
        FoundGeraRef::Before { off_lo, off_hi, tgt_lo, tgt_hi } => {
            let o = sub_chars(t, *off_lo, *off_hi);
            let x = sub_chars(t, *tgt_lo, *tgt_hi);
            append_chars(out, &lit("<span class=\"gera-ref gera-ref--before\" data-offset=\""));
            append_chars(out, &o);
            append_chars(out, &lit("\" data-target=\""));
            append_chars(out, &x);
            append_chars(out, &lit("\">@before["));
            append_chars(out, &o);
            append_chars(out, &lit("]:"));
            append_chars(out, &x);
            append_chars(out, &lit("</span>"));
        },
        FoundGeraRef::DateTime { lo, hi } => {
            let d = sub_chars(t, *lo, *hi);
            append_chars(out, &lit("<span class=\"gera-ref gera-ref--datetime\" data-datetime=\""));
            append_chars(out, &d);
            append_chars(out, &lit("\">@"));
            append_chars(out, &d);
            append_chars(out, &lit("</span>"));
        },
        FoundGeraRef::Event { lo, hi } => {
            let d = sub_chars(t, *lo, *hi);
            append_chars(out, &lit("<span class=\"gera-ref gera-ref--event\" data-event=\""));
            append_chars(out, &d);
            append_chars(out, &lit("\">@"));
            append_chars(out, &d);
            append_chars(out, &lit("</span>"));
        },
        FoundGeraRef::Project { lo, hi } => {
            let d = sub_chars(t, *lo, *hi);
            append_chars(out, &lit("<span class=\"gera-ref gera-ref--project\" data-project=\""));
            append_chars(out, &d);
            append_chars(out, &lit("\">#"));
            append_chars(out, &d);
            append_chars(out, &lit("</span>"));
        },
    }
}

/// A recognised reference by the positions of its parts in the text.
pub enum FoundGeraRef {
    Before { off_lo: usize, off_hi: usize, tgt_lo: usize, tgt_hi: usize },
    DateTime { lo: usize, hi: usize },
    Event { lo: usize, hi: usize },
    Project { lo: usize, hi: usize },
}

impl FoundGeraRef {
    pub open spec fn wf(&self, t: Seq<char>) -> bool {
        match self {
            FoundGeraRef::Before { off_lo, off_hi, tgt_lo, tgt_hi } => *off_lo <= *off_hi
                && *off_hi <= t.len() && *tgt_lo <= *tgt_hi && *tgt_hi <= t.len(),
            FoundGeraRef::DateTime { lo, hi } => *lo <= *hi && *hi <= t.len(),
            FoundGeraRef::Event { lo, hi } => *lo <= *hi && *hi <= t.len(),
            FoundGeraRef::Project { lo, hi } => *lo <= *hi && *hi <= t.len(),
        }
    }

    pub open spec fn spec_ref(&self, t: Seq<char>) -> GeraRef {
        match self {
            FoundGeraRef::Before { off_lo, off_hi, tgt_lo, tgt_hi } => GeraRef::Before {
                offset: t.subrange(*off_lo as int, *off_hi as int),
                target: t.subrange(*tgt_lo as int, *tgt_hi as int),
            },
            FoundGeraRef::DateTime { lo, hi } => GeraRef::DateTime(
                t.subrange(*lo as int, *hi as int),
            ),
            FoundGeraRef::Event { lo, hi } => GeraRef::Event(t.subrange(*lo as int, *hi as int)),
            FoundGeraRef::Project { lo, hi } => GeraRef::Project(t.subrange(*lo as int, *hi as int)),
        }
    }
}

fn gera_ref_at_exec(t: &Vec<char>, j: usize, before: &Vec<char>) -> (r: Option<(FoundGeraRef, usize)>)
    requires
        j < t.len(),
        before@ == before_prefix(),
    ensures
        match gera_ref_at(t@, j as int) {
            Some((g, e)) => r matches Some((f, e2)) && f.wf(t@) && f.spec_ref(t@) == g && e2 == e
                && j < e <= t.len(),
            None => r is None,
        },
{
    if t[j] == '@' {
        if t.len() - j >= 8 && crate::text::matches_at(t, j, before) {
            let q = run_end_of(t, j + 8, CharClass::Digit);
            if q > j + 8 && t.len() - q > 3 {
                let u = t[q];
                if (u == 'Y' || u == 'M' || u == 'W' || u == 'd' || u == 'h' || u == 'm') && t[q + 1]
                    == ']' && t[q + 2] == ':' && class_has(CharClass::Word, t[q + 3]) {
                    let r = run_end_of(t, q + 4, CharClass::Target);
                    return Some(
                        (FoundGeraRef::Before { off_lo: j + 8, off_hi: q + 1, tgt_lo: q + 3, tgt_hi: r }, r),
                    );
                }
            }
        }
        match datetime_end_exec(t, j + 1) {
            Some(e) => {
                return Some((FoundGeraRef::DateTime { lo: j + 1, hi: e }, e));
            },
            None => {},
        }
        if t.len() - j > 1 && is_ascii_letter_exec(t[j + 1]) {
            let e = run_end_of(t, j + 2, CharClass::ProjectId);
            return Some((FoundGeraRef::Event { lo: j + 1, hi: e }, e));
        }
        None
    } else if t[j] == '#' && t.len() - j > 1 && is_ascii_letter_exec(t[j + 1]) {
        let e = run_end_of(t, j + 2, CharClass::ProjectId);
        Some((FoundGeraRef::Project { lo: j + 1, hi: e }, e))
    } else {
        None
    }
}

/// Wraps every `@before[..]:target`, `@date-time`, `@event-id` and `#project-id` of an
/// HTML text in a `<span class="gera-ref ...">`.
pub fn replace_gera_refs(html: &str) -> (r: String)
    ensures
        r@ == with_refs(html@, 0),
{
    let t = chars_of(html);
    let before = vec!['@', 'b', 'e', 'f', 'o', 'r', 'e', '['];
    assert(before@ == before_prefix());
    let mut out: Vec<char> = Vec::new();
    let mut j: usize = 0;
    while j < t.len()
        invariant
            j <= t.len(),
            t@ == html@,
            before@ == before_prefix(),
            with_refs(t@, 0) == out@ + with_refs(t@, j as int),
        decreases t.len() - j,
    {
        match gera_ref_at_exec(&t, j, &before) {
            Some((g, e)) => {
                let ghost old = out@;
                push_span(&mut out, &t, &g);
                assert(with_refs(t@, j as int) == span_of(g.spec_ref(t@)) + with_refs(t@, e as int));
                assert(old + with_refs(t@, j as int) == out@ + with_refs(t@, e as int));
                j = e;
            },
            None => {
                let ghost old = out@;
                out.push(t[j]);
                assert(old + with_refs(t@, j as int) == out@ + with_refs(t@, j + 1));
                j = j + 1;
            },
        }
    }
    assert(out@ + with_refs(t@, j as int) == out@);
    string_of(&out)
}

/// The HTML that comrak renders for a markdown text with the strikethrough, table and
/// task-list extensions and raw HTML escaped.
pub uninterp spec fn commonmark_html(md: Seq<char>) -> Seq<char>;

/// Calls `comrak::markdown_to_html` with the strikethrough, table and task-list extensions
/// and `render.escape`; the contract claims only that the HTML is a function of the text.
#[verifier::external_body]
fn markdown_to_html(body: &str) -> (html: String)
    ensures
        html@ == commonmark_html(body@),
{
    let mut options = comrak::Options::default();
    options.extension.strikethrough = true;
    options.extension.table = true;
    options.extension.tasklist = true;
    options.render.escape = true;
    comrak::markdown_to_html(body, &options)
}

/// Renders a markdown body (no front matter) to HTML with its references wrapped in spans.
pub fn render_body(markdown_body: &str) -> (r: String)
    ensures
        r@ == with_refs(commonmark_html(markdown_body@), 0),
{
    let raw = markdown_to_html(markdown_body);
    replace_gera_refs(raw.as_str())
}

} // verus!

verus! {

/// A rendered document: its HTML, its title, its front-matter map and the event and
/// project ids that the front matter lists.
#[derive(Debug)]
pub struct RenderedDocument {
    pub html: String,
    pub title: String,
    pub frontmatter: Vec<(String, YamlValue)>,
    pub event_ids: Vec<String>,
    pub project_ids: Vec<String>,
}

/// Renders a file text: its front matter split off and read, the title and HTML taken
/// from the body, and the listed event and project ids taken from the front matter.
pub fn render(content: &str) -> (r: RenderedDocument)
    ensures
        entries_view(r.frontmatter@) == frontmatter_of(content@).0,
        r.title@ == title_of(frontmatter_of(content@).1),
        r.html@ == with_refs(commonmark_html(frontmatter_of(content@).1), 0),
        strs(r.event_ids@) == fm_list(frontmatter_of(content@).0, event_ids_key()),
        strs(r.project_ids@) == fm_list(frontmatter_of(content@).0, project_ids_key()),
{
    let (frontmatter, body) = parse_frontmatter(content);
    let title = extract_title(body.as_str());
    let html = render_body(body.as_str());
    let event_ids = frontmatter_event_ids(&frontmatter);
    let project_ids = frontmatter_project_ids(&frontmatter);
    RenderedDocument { html, title, frontmatter, event_ids, project_ids }
}

} // verus!
