use crate::settings::Settings;
use vstd::prelude::*;
use yaml_rust::{Yaml, YamlLoader};

verus! {

#[verifier::external_type_specification]
#[verifier::external_body]
pub struct ExYaml(Yaml);

/// A YAML node, as the YAML parser reads it: scalars, arrays, and hashes
/// whose entries keep the order of the text.
pub enum YamlValue {
    Real(String),
    Integer(i64),
    String(String),
    Boolean(bool),
    Array(Vec<YamlValue>),
    Hash(Vec<(YamlValue, YamlValue)>),
    Alias(usize),
    Null,
    BadValue,
}

/// The documents that the YAML parser reads from `text`, `None` when the
/// text is not YAML.
pub uninterp spec fn yaml_parse(text: Seq<char>) -> Option<Seq<YamlValue>>;

/// The positions of the entries whose key is text, in order.
pub open spec fn text_key_positions(fields: Seq<(YamlValue, YamlValue)>) -> Seq<int>
    decreases fields.len(),
{
    if fields.len() == 0 {
        Seq::empty()
    } else if fields.last().0 is String {
        text_key_positions(fields.drop_last()).push(fields.len() - 1)
    } else {
        text_key_positions(fields.drop_last())
    }
}

/// `s` is the settings tree of `y`: booleans, integers and text as they
/// are, arrays element by element, hashes by the entries whose key is text,
/// in order, and anything else (real numbers, aliases, null) as null.
pub open spec fn settings_of(y: YamlValue, s: Settings) -> bool
    decreases y,
{
    match y {
        YamlValue::Boolean(b) => s == Settings::Bool(b),
        YamlValue::Integer(i) => s == Settings::I64(i),
        YamlValue::String(t) => s matches Settings::String(u) && u@ == t@,
        YamlValue::Array(items) => s matches Settings::Array(v) && v@.len() == items@.len() && forall|
            i: int,
        |
            0 <= i < items@.len() ==> settings_of(items@[i], #[trigger] v@[i]),
        YamlValue::Hash(fields) => {
            let kept = text_key_positions(fields@);
            s matches Settings::Object(o) && o@.len() == kept.len() && forall|j: int|
                0 <= j < kept.len() ==> 0 <= kept[j] < fields@.len() && (fields@[kept[j]].0 matches YamlValue::String(
                    k,
                ) && (#[trigger] o@[j]).0@ == k@) && settings_of(fields@[kept[j]].1, o@[j].1)
        },
        _ => s == Settings::Null,
    }
}

/// Converts a node of the tree that `yaml_rust` builds into a `YamlValue`,
/// variant by variant, the entries of a hash in their order. It claims
/// nothing: what the tree holds is named by `yaml_parse`.
#[verifier::external_body]
fn yaml_value(yaml: &Yaml) -> YamlValue {
    match yaml {
        Yaml::Real(text) => YamlValue::Real(text.clone()),
        Yaml::Integer(value) => YamlValue::Integer(*value),
        Yaml::String(text) => YamlValue::String(text.clone()),
        Yaml::Boolean(value) => YamlValue::Boolean(*value),
        Yaml::Array(items) => YamlValue::Array(items.iter().map(yaml_value).collect()),
        Yaml::Hash(fields) => YamlValue::Hash(fields.iter().map(|(k, v)| (yaml_value(k), yaml_value(v))).collect()),
        Yaml::Alias(index) => YamlValue::Alias(*index),
        Yaml::Null => YamlValue::Null,
        Yaml::BadValue => YamlValue::BadValue,
    }
}

/// Calls `YamlLoader::load_from_str`, which parses the YAML text into its
/// documents or fails with a `ScanError`. The contract claims that the
/// documents given back, node by node, are those `yaml_parse` names for the
/// text, and that there are none exactly when it names none.
#[verifier::external_body]
fn yaml_documents(text: &str) -> (res: Option<Vec<YamlValue>>)
    ensures
        res matches Some(docs) ==> yaml_parse(text@) == Some(docs@),
        res is None ==> yaml_parse(text@) is None,
{
    match YamlLoader::load_from_str(text) {
        Ok(docs) => Some(docs.iter().map(yaml_value).collect()),
        Err(_) => None,
    }
}

/// Returns the settings tree of a YAML node.
pub fn settings_from_yaml(yaml: &YamlValue) -> (res: Settings)
    ensures
        settings_of(*yaml, res),
    decreases yaml,
{
    match yaml {
        YamlValue::Boolean(value) => Settings::Bool(*value),
        YamlValue::Integer(value) => Settings::I64(*value),
        YamlValue::String(text) => Settings::String(text.clone()),
        YamlValue::Array(items) => {
            let mut out: Vec<Settings> = Vec::new();
            let n = items.len();
            let mut i: usize = 0;
            while i < n
                invariant
                    *yaml == YamlValue::Array(*items),
                    n == items@.len(),
                    i <= n,
                    out@.len() == i,
                    forall|k: int| 0 <= k < i ==> settings_of(items@[k], #[trigger] out@[k]),
                decreases n - i,
            {
                proof {
                    assert(*items == (*yaml)->Array_0);
                    assert(decreases_to!(*yaml => (*yaml)->Array_0));
                    assert(decreases_to!(*items => items@));
                    assert(decreases_to!(items@ => items@[i as int]));
                }
                let converted = settings_from_yaml(&items[i]);
                out.push(converted);
                i = i + 1;
            }
            Settings::Array(out)
        },
        YamlValue::Hash(fields) => {
            let ghost kept_all = text_key_positions(fields@);
            let mut out: Vec<(String, Settings)> = Vec::new();
            let n = fields.len();
            let mut i: usize = 0;
            assert(fields@.take(0) =~= Seq::<(YamlValue, YamlValue)>::empty());
            while i < n
                invariant
                    *yaml == YamlValue::Hash(*fields),
                    n == fields@.len(),
                    i <= n,
                    out@.len() == text_key_positions(fields@.take(i as int)).len(),
                    forall|j: int|
                        0 <= j < out@.len() ==> 0 <= #[trigger] text_key_positions(fields@.take(i as int))[j]
                            < i && (fields@[text_key_positions(fields@.take(i as int))[j]].0 matches YamlValue::String(
                            k,
                        ) && out@[j].0@ == k@) && settings_of(
                            fields@[text_key_positions(fields@.take(i as int))[j]].1,
                            out@[j].1,
                        ),
                decreases n - i,
            {
                let ghost before = text_key_positions(fields@.take(i as int));
                proof {
                    let t = fields@.take(i + 1);
                    assert(t.drop_last() =~= fields@.take(i as int));
                    assert(t.last() == fields@[i as int]);
                }
                match &fields[i].0 {
                    YamlValue::String(key) => {
                        proof {
                            assert(*fields == (*yaml)->Hash_0);
                            assert(decreases_to!(*yaml => (*yaml)->Hash_0));
                            assert(decreases_to!(*fields => fields@));
                            assert(decreases_to!(fields@ => fields@[i as int]));
                            assert(decreases_to!(fields@[i as int] => fields@[i as int].1));
                        }
                        let value = settings_from_yaml(&fields[i].1);
                        out.push((key.clone(), value));
                        proof {
                            let now = text_key_positions(fields@.take(i + 1));
                            assert(now == before.push(i as int));
                            assert forall|j: int| 0 <= j < out@.len() implies 0 <= #[trigger] now[j] < i + 1
                                && (fields@[now[j]].0 matches YamlValue::String(k) && out@[j].0@ == k@)
                                && settings_of(fields@[now[j]].1, out@[j].1) by {
                                if j < before.len() {
                                    assert(now[j] == before[j]);
                                }
                            }
                        }
                    },
                    _ => {
                        proof {
                            let now = text_key_positions(fields@.take(i + 1));
                            assert(now == before);
                        }
                    },
                }
                i = i + 1;
            }
            assert(fields@.take(n as int) =~= fields@);
            Settings::Object(out)
        },
        _ => Settings::Null,
    }
}

/// The settings of the first document of a YAML text, `None` when the text
/// is not YAML or holds no document.
pub fn settings_from_str(text: &str) -> (res: Option<Settings>)
    ensures
        match yaml_parse(text@) {
            Some(docs) => if docs.len() > 0 {
                res matches Some(s) && settings_of(docs[0], s)
            } else {
                res is None
            },
            None => res is None,
        },
{
    match yaml_documents(text) {
        Some(documents) => {
            if documents.len() > 0 {
                Some(settings_from_yaml(&documents[0]))
            } else {
                None
            }
        },
        None => None,
    }
}

} // verus!
