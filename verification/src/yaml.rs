//! YAML documents as plain values, and the serde_yaml parse that reads them.

use serde_yaml::value::{Tag, TaggedValue};
use serde_yaml::Value;
use vstd::prelude::*;

verus! {

#[verifier::external_type_specification]
#[verifier::external_body]
pub struct ExYamlValue(serde_yaml::Value);

/// A YAML tag, as serde_yaml prints it (such as `!date`); never empty.
#[derive(Debug, PartialEq, Eq)]
pub struct YamlTag {
    name: String,
}

impl YamlTag {
    #[verifier::type_invariant]
    spec fn nonempty(self) -> bool {
        self.name@.len() > 0
    }

    pub closed spec fn text(self) -> Seq<char> {
        self.name@
    }

    /// The tag named `name`; none for an empty name.
    pub fn new(name: String) -> (r: Option<YamlTag>)
        ensures
            r is Some <==> name@.len() > 0,
            r matches Some(t) ==> t.text() == name@,
    {
        if crate::text::chars_of(name.as_str()).len() > 0 {
            Some(YamlTag { name })
        } else {
            None
        }
    }

    /// The tag's text.
    pub fn as_str(&self) -> (r: &str)
        ensures
            r@ == self.text(),
    {
        self.name.as_str()
    }
}

/// A YAML value: numbers in their printed form, mappings as their entries in order, a
/// tagged value as its tag and value.
#[derive(Debug, PartialEq, Eq)]
pub enum YamlValue {
    Null,
    Bool(bool),
    Number(String),
    Str(String),
    List(Vec<YamlValue>),
    Mapping(Vec<(YamlValue, YamlValue)>),
    Tagged(YamlTag, Box<YamlValue>),
}

/// What serde_yaml reads from the YAML text `text`: the value, or the text of the error.
pub uninterp spec fn yaml_parsed(text: Seq<char>) -> Result<YamlValue, Seq<char>>;

/// The value that serde_yaml reads from the YAML text `text`, if it parses.
pub open spec fn yaml_document(text: Seq<char>) -> Option<YamlValue> {
    match yaml_parsed(text) {
        Ok(v) => Some(v),
        Err(_) => None,
    }
}

/// Converts a `serde_yaml::Value` into a `YamlValue`, variant for variant.
#[verifier::external_body]
fn yaml_from(v: &Value) -> YamlValue {
    match v {
        Value::Null => YamlValue::Null,
        Value::Bool(b) => YamlValue::Bool(*b),
        Value::Number(n) => YamlValue::Number(n.to_string()),
        Value::String(s) => YamlValue::Str(s.clone()),
        Value::Sequence(xs) => YamlValue::List(xs.iter().map(yaml_from).collect()),
        Value::Mapping(m) => YamlValue::Mapping(m.iter().map(|(k, x)| (yaml_from(k), yaml_from(x))).collect()),
        Value::Tagged(t) => YamlValue::Tagged(YamlTag { name: t.tag.to_string() }, Box::new(yaml_from(&t.value))),
    }
}

/// Calls `serde_yaml::from_str::<serde_yaml::Value>`; the contract claims only that the
/// value, or the error's text (its `Display`), is a function of the YAML text.
#[verifier::external_body]
pub(crate) fn parse_yaml_text(text: &str) -> (r: Result<YamlValue, String>)
    ensures
        match yaml_parsed(text@) {
            Ok(v) => r == Ok::<YamlValue, String>(v),
            Err(m) => r matches Err(x) && x@ == m,
        },
{
    match serde_yaml::from_str::<Value>(text) {
        Ok(v) => Ok(yaml_from(&v)),
        Err(e) => Err(e.to_string()),
    }
}

/// Parses a YAML text, if it parses.
pub(crate) fn parse_yaml(text: &str) -> (r: Option<YamlValue>)
    ensures
        r == yaml_document(text@),
{
    match parse_yaml_text(text) {
        Ok(v) => Some(v),
        Err(_) => None,
    }
}

/// `v` is the string `t`.
pub open spec fn is_str(v: YamlValue, t: Seq<char>) -> bool {
    v matches YamlValue::Str(x) && x@ == t
}

/// The value with its tags taken off.
pub open spec fn untagged(v: YamlValue) -> YamlValue
    decreases v,
{
    match v {
        YamlValue::Tagged(_, b) => untagged(*b),
        _ => v,
    }
}

/// Takes the tags off a value, as serde_yaml does before reading it as a string, a list
/// or a mapping.
pub fn untag(v: &YamlValue) -> (r: &YamlValue)
    ensures
        *r == untagged(*v),
    decreases v,
{
    match v {
        YamlValue::Tagged(_, b) => untag(b),
        _ => v,
    }
}

/// The text of a string value, tags taken off (`Value::as_str`).
pub open spec fn str_of(v: YamlValue) -> Option<Seq<char>> {
    match untagged(v) {
        YamlValue::Str(s) => Some(s@),
        _ => None,
    }
}

/// The text of a string value, tags taken off.
pub fn as_text(v: &YamlValue) -> (r: Option<String>)
    ensures
        match str_of(*v) {
            Some(t) => r matches Some(s) && s@ == t,
            None => r is None,
        },
{
    match untag(v) {
        YamlValue::Str(s) => Some(s.clone()),
        _ => None,
    }
}

/// The value of the first entry whose key is the string `key`.
pub open spec fn entry_for(m: Seq<(YamlValue, YamlValue)>, key: Seq<char>) -> Option<YamlValue>
    decreases m.len(),
{
    if m.len() == 0 {
        None
    } else if m[0].0 matches YamlValue::Str(k) && k@ == key {
        Some(m[0].1)
    } else {
        entry_for(m.drop_first(), key)
    }
}

/// The entry at `j` is the first whose key is the string `key`.
pub proof fn lemma_entry_for_at(m: Seq<(YamlValue, YamlValue)>, key: Seq<char>, j: int)
    requires
        0 <= j < m.len(),
        m[j].0 matches YamlValue::Str(k) && k@ == key,
        forall|i: int| 0 <= i < j ==> !(#[trigger] m[i].0 matches YamlValue::Str(k) && k@ == key),
    ensures
        entry_for(m, key) == Some(m[j].1),
    decreases j,
{
    if j > 0 {
        assert(!(m[0].0 matches YamlValue::Str(k) && k@ == key));
        let m2 = m.drop_first();
        assert forall|i: int| 0 <= i < j - 1 implies !(#[trigger] m2[i].0 matches YamlValue::Str(k) && k@ == key) by {
            assert(m2[i] == m[i + 1]);
        }
        lemma_entry_for_at(m2, key, j - 1);
    }
}

/// The value under the string key `key` of a mapping, tags taken off the mapping
/// (`Value::get` with a `&str`); none for a value that is not a mapping.
pub open spec fn key_value(v: YamlValue, key: Seq<char>) -> Option<YamlValue> {
    match untagged(v) {
        YamlValue::Mapping(m) => entry_for(m@, key),
        _ => None,
    }
}

/// The value under the string key `key` of a mapping.
pub fn get_key<'a>(v: &'a YamlValue, key: &str) -> (r: Option<&'a YamlValue>)
    ensures
        match key_value(*v, key@) {
            Some(x) => r matches Some(y) && *y == x,
            None => r is None,
        },
{
    match untag(v) {
        YamlValue::Mapping(m) => {
            let mut i: usize = 0;
            assert(m@.skip(0) =~= m@);
            while i < m.len()
                invariant
                    i <= m.len(),
                    key_value(*v, key@) == entry_for(m@, key@),
                    entry_for(m@, key@) == entry_for(m@.skip(i as int), key@),
                decreases m.len() - i,
            {
                assert(m@.skip(i as int)[0] == m@[i as int]);
                assert(m@.skip(i as int).drop_first() =~= m@.skip(i + 1));
                match &m[i].0 {
                    YamlValue::Str(k) => {
                        if crate::storage::string_eq(k, key) {
                            assert(m@.skip(i as int)[0].0 == YamlValue::Str(*k));
                            assert(entry_for(m@.skip(i as int), key@) == Some(m@[i as int].1));
                            return Some(&m[i].1);
                        }
                    },
                    _ => {},
                }
                i = i + 1;
            }
            None
        },
        _ => None,
    }
}

/// Takes the tags off an owned value.
pub fn into_untagged(v: YamlValue) -> (r: YamlValue)
    ensures
        r == untagged(v),
    decreases v,
{
    match v {
        YamlValue::Tagged(_, b) => into_untagged(*b),
        _ => v,
    }
}

/// Takes out of a mapping the value under the string key `key`.
pub fn take_key(v: YamlValue, key: &str) -> (r: Option<YamlValue>)
    ensures
        r == key_value(v, key@),
{
    let u = into_untagged(v);
    match u {
        YamlValue::Mapping(m) => {
            let mut m = m;
            let ghost orig = m@;
            assert(key_value(v, key@) == entry_for(orig, key@));
            let ghost mut taken: int = 0;
            assert(orig.skip(0) =~= orig);
            while m.len() > 0
                invariant
                    0 <= taken <= orig.len(),
                    m@ == orig.skip(taken),
                    key_value(v, key@) == entry_for(orig, key@),
                    entry_for(orig, key@) == entry_for(orig.skip(taken), key@),
                decreases m.len(),
            {
                let (k, x) = m.remove(0);
                assert(orig.skip(taken)[0] == (k, x));
                assert(orig.skip(taken).drop_first() =~= orig.skip(taken + 1));
                match &k {
                    YamlValue::Str(ks) => {
                        if crate::storage::string_eq(ks, key) {
                            assert(entry_for(orig.skip(taken), key@) == Some(x));
                            return Some(x);
                        }
                    },
                    _ => {},
                }
                proof {
                    taken = taken + 1;
                }
                assert(m@ =~= orig.skip(taken));
            }
            None
        },
        _ => None,
    }
}

/// The text that serde_yaml prints for a YAML value, if it prints.
pub uninterp spec fn yaml_printed(v: YamlValue) -> Option<Seq<char>>;

/// Converts a `YamlValue` into a `serde_yaml::Value`, variant for variant (a number from
/// its printed form); a `YamlTag` is never empty, so `serde_yaml::value::Tag::new`, which
/// panics on an empty tag, always returns.
#[verifier::external_body]
fn yaml_into(v: &YamlValue) -> Value {
    match v {
        YamlValue::Null => Value::Null,
        YamlValue::Bool(b) => Value::Bool(*b),
        YamlValue::Number(n) => n.parse().map(Value::Number).unwrap_or(Value::String(n.clone())),
        YamlValue::Str(s) => Value::String(s.clone()),
        YamlValue::List(xs) => Value::Sequence(xs.iter().map(yaml_into).collect()),
        YamlValue::Mapping(m) => Value::Mapping(m.iter().map(|(k, x)| (yaml_into(k), yaml_into(x))).collect()),
        YamlValue::Tagged(t, x) => Value::Tagged(Box::new(TaggedValue { tag: Tag::new(t.name.clone()), value: yaml_into(x) })),
    }
}

/// Calls `serde_yaml::to_string` on the value; the contract claims only that the printed
/// text is a function of the value (`None` when printing fails).
#[verifier::external_body]
pub(crate) fn print_yaml(v: &YamlValue) -> (r: Option<String>)
    ensures
        match yaml_printed(*v) {
            Some(t) => r matches Some(s) && s@ == t,
            None => r is None,
        },
{
    serde_yaml::to_string(&yaml_into(v)).ok()
}

} // verus!
