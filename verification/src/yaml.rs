//! A YAML document as the bus description reads it.
use vstd::prelude::*;
use crate::text::str_eq;

verus! {

/// A YAML node.
pub enum YamlValue {
    /// A floating point number, kept as written.
    Real(String),
    Integer(i64),
    Text(String),
    Boolean(bool),
    Array(Vec<YamlValue>),
    /// A mapping, its entries in the order of the document.
    Hash(Vec<(YamlValue, YamlValue)>),
    Alias(usize),
    Null,
    /// What is read where a node is missing.
    BadValue,
}

/// The node is the text `key`.
pub open spec fn key_is(k: YamlValue, key: Seq<char>) -> bool {
    match k {
        YamlValue::Text(s) => s@ == key,
        _ => false,
    }
}

pub fn key_matches(k: &YamlValue, key: &str) -> (r: bool)
    ensures
        r == key_is(*k, key@),
{
    match k {
        YamlValue::Text(s) => str_eq(s.as_str(), key),
        _ => false,
    }
}

/// The value of the first entry whose key is the text `key`.
pub open spec fn lookup_key(entries: Seq<(YamlValue, YamlValue)>, key: Seq<char>) -> Option<YamlValue>
    decreases entries.len(),
{
    if entries.len() == 0 {
        None
    } else if key_is(entries[0].0, key) {
        Some(entries[0].1)
    } else {
        lookup_key(entries.drop_first(), key)
    }
}

/// The value under `key` in a mapping; none where the node is not a mapping or lacks it.
pub open spec fn yaml_get(y: YamlValue, key: Seq<char>) -> Option<YamlValue> {
    match y {
        YamlValue::Hash(entries) => lookup_key(entries@, key),
        _ => None,
    }
}

/// The node under `key`, or a bad value where there is none.
pub open spec fn yaml_index(y: YamlValue, key: Seq<char>) -> YamlValue {
    match yaml_get(y, key) {
        Some(v) => v,
        None => YamlValue::BadValue,
    }
}

/// The text of a text node.
pub open spec fn yaml_str(y: YamlValue) -> Option<Seq<char>> {
    match y {
        YamlValue::Text(s) => Some(s@),
        _ => None,
    }
}

impl YamlValue {
    /// The value under `key`, where this is a mapping that has it.
    pub fn get(&self, key: &str) -> (r: Option<&YamlValue>)
        ensures
            r == (match yaml_get(*self, key@) {
                Some(v) => Some(&v),
                None => None,
            }),
    {
        match self {
            YamlValue::Hash(entries) => {
                let mut i: usize = 0;
                assert(entries@.skip(0) =~= entries@);
                while i < entries.len()
                    invariant
                        i <= entries@.len(),
                        *self == YamlValue::Hash(*entries),
                        lookup_key(entries@, key@) == lookup_key(entries@.skip(i as int), key@),
                    decreases entries@.len() - i,
                {
                    assert(entries@.skip(i as int).drop_first() =~= entries@.skip(i + 1));
                    assert(entries@.skip(i as int)[0] == entries@[i as int]);
                    if key_matches(&entries[i].0, key) {
                        return Some(&entries[i].1);
                    }
                    i = i + 1;
                }
                None
            },
            _ => None,
        }
    }

    /// The text, where this is a text node.
    pub fn as_str(&self) -> (r: Option<&str>)
        ensures
            r matches Some(s) ==> yaml_str(*self) == Some(s@),
            r is None ==> yaml_str(*self) is None,
    {
        match self {
            YamlValue::Text(s) => Some(s.as_str()),
            _ => None,
        }
    }

    /// The integer, where this is an integer node.
    pub fn as_i64(&self) -> (r: Option<i64>)
        ensures
            r == (match *self {
                YamlValue::Integer(i) => Some(i),
                _ => None,
            }),
    {
        match self {
            YamlValue::Integer(i) => Some(*i),
            _ => None,
        }
    }

    /// Whether this is the bad value.
    pub fn is_badvalue(&self) -> (r: bool)
        ensures
            r == (*self is BadValue),
    {
        match self {
            YamlValue::BadValue => true,
            _ => false,
        }
    }
}

/// A value found under a key is the value of one of the entries.
pub proof fn lemma_lookup_member(entries: Seq<(YamlValue, YamlValue)>, key: Seq<char>)
    ensures
        lookup_key(entries, key) matches Some(v) ==> exists|i: int| 0 <= i < entries.len() && (#[trigger] entries[i]).1 == v,
    decreases entries.len(),
{
    if entries.len() > 0 && !key_is(entries[0].0, key) {
        lemma_lookup_member(entries.drop_first(), key);
        if let Some(v) = lookup_key(entries, key) {
            let i = choose|i: int| 0 <= i < entries.drop_first().len() && (#[trigger] entries.drop_first()[i]).1 == v;
            assert(entries[i + 1] == entries.drop_first()[i]);
        }
    } else if entries.len() > 0 {
        assert(entries[0].1 == entries[0].1);
    }
}

/// `yaml_rust2::Yaml`, the tree `YamlLoader` builds.
#[verifier::external_type_specification]
#[verifier::external_body]
pub struct ExYaml(yaml_rust2::Yaml);

/// What `YamlLoader::load_from_str` gives on a text: its documents, each node converted
/// variant for variant into a `YamlValue` (mapping entries in the order of the document),
/// or the message of its scan error.
pub uninterp spec fn parsed_docs(text: Seq<char>) -> Result<Seq<YamlValue>, Seq<char>>;

/// Converts a node of the tree `yaml_rust2` builds into a `YamlValue`, variant for variant;
/// a mapping's entries in its order (that of the document).
#[verifier::external_body]
fn yaml_value_of(y: &yaml_rust2::Yaml) -> YamlValue {
    match y {
        yaml_rust2::Yaml::Real(s) => YamlValue::Real(s.clone()),
        yaml_rust2::Yaml::Integer(i) => YamlValue::Integer(*i),
        yaml_rust2::Yaml::String(s) => YamlValue::Text(s.clone()),
        yaml_rust2::Yaml::Boolean(b) => YamlValue::Boolean(*b),
        yaml_rust2::Yaml::Array(a) => YamlValue::Array(a.iter().map(yaml_value_of).collect()),
        yaml_rust2::Yaml::Hash(h) => YamlValue::Hash(h.iter().map(|(k, v)| (yaml_value_of(k), yaml_value_of(v))).collect()),
        yaml_rust2::Yaml::Alias(i) => YamlValue::Alias(*i),
        yaml_rust2::Yaml::Null => YamlValue::Null,
        yaml_rust2::Yaml::BadValue => YamlValue::BadValue,
    }
}

/// Parses a text with `yaml_rust2::YamlLoader::load_from_str`: its documents, converted
/// node for node, or the message of the scan error. The contract claims only that the
/// outcome is a function of the text, named [parsed_docs].
#[verifier::external_body]
pub fn parse_yaml_docs(text: &str) -> (r: Result<Vec<YamlValue>, String>)
    ensures
        match r {
            Ok(v) => parsed_docs(text@) == Ok::<Seq<YamlValue>, Seq<char>>(v@),
            Err(e) => parsed_docs(text@) == Err::<Seq<YamlValue>, Seq<char>>(e@),
        },
{
    match yaml_rust2::YamlLoader::load_from_str(text) {
        Ok(docs) => Ok(docs.iter().map(yaml_value_of).collect()),
        Err(e) => Err(e.to_string()),
    }
}

/// Converts a `YamlValue` back into the node of `yaml_rust2` it stands for, variant for
/// variant; a mapping's entries in its order.
#[verifier::external_body]
fn yaml_of_value(v: &YamlValue) -> yaml_rust2::Yaml {
    match v {
        YamlValue::Real(s) => yaml_rust2::Yaml::Real(s.clone()),
        YamlValue::Integer(i) => yaml_rust2::Yaml::Integer(*i),
        YamlValue::Text(s) => yaml_rust2::Yaml::String(s.clone()),
        YamlValue::Boolean(b) => yaml_rust2::Yaml::Boolean(*b),
        YamlValue::Array(a) => yaml_rust2::Yaml::Array(a.iter().map(yaml_of_value).collect()),
        YamlValue::Hash(h) => yaml_rust2::Yaml::Hash(h.iter().map(|(k, v)| (yaml_of_value(k), yaml_of_value(v))).collect()),
        YamlValue::Alias(i) => yaml_rust2::Yaml::Alias(*i),
        YamlValue::Null => yaml_rust2::Yaml::Null,
        YamlValue::BadValue => yaml_rust2::Yaml::BadValue,
    }
}

/// What the `Debug` format of `yaml_rust2::Yaml` writes for the node `y` stands for.
pub uninterp spec fn yaml_debug_text(y: YamlValue) -> Seq<char>;

/// What the `Debug` format of the mapping `yaml_rust2::yaml::Hash` writes for the entries.
pub uninterp spec fn map_debug_text(entries: Seq<(YamlValue, YamlValue)>) -> Seq<char>;

/// The node as `yaml_rust2::Yaml`'s `Debug` format writes it (for error messages); the
/// contract claims only that the text is a function of the node, named [yaml_debug_text].
#[verifier::external_body]
pub fn yaml_debug(y: &YamlValue) -> (r: String)
    ensures
        r@ == yaml_debug_text(*y),
{
    format!("{:?}", yaml_of_value(y))
}

/// The mapping as the `Debug` format of `yaml_rust2::yaml::Hash` writes it (for error
/// messages); the contract claims only that the text is a function of the entries, named
/// [map_debug_text].
#[verifier::external_body]
pub fn map_debug(entries: &Vec<(YamlValue, YamlValue)>) -> (r: String)
    ensures
        r@ == map_debug_text(entries@),
{
    let h: yaml_rust2::yaml::Hash = entries.iter().map(|(k, v)| (yaml_of_value(k), yaml_of_value(v))).collect();
    format!("{:?}", h)
}

} // verus!
