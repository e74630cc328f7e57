//! Loading configuration trees from file text. The YAML grammar itself is
//! serde_yaml's; parsing stands behind a trusted boundary and everything
//! after the parse is verified against the name `yaml_doc` given to its
//! result.

use vstd::prelude::*;
use crate::value::{ConfigValue, NumberValue, SpecConfig};

verus! {

/// serde_yaml's dynamically typed document value; opaque to the proofs.
#[verifier::external_type_specification]
#[verifier::external_body]
pub struct ExYamlValue(serde_yaml::Value);

/// serde_yaml's numeric scalar; opaque to the proofs.
#[verifier::external_type_specification]
#[verifier::external_body]
pub struct ExYamlNumber(serde_yaml::Number);

/// The tree that parsing a text as one YAML document yields: `Some` of the
/// document's tree for well-formed input, `None` for malformed input.
/// Parsing depends on the text alone.
pub uninterp spec fn yaml_doc(text: Seq<char>) -> Option<SpecConfig>;

/// Relies on serde_yaml::Number's accessors `as_i64`, `as_u64` and its
/// decimal rendering: an integer moves out exactly, any other numeral as
/// its rendered text.
#[verifier::external_body]
fn number_from_yaml(n: serde_yaml::Number) -> NumberValue {
    if let Some(i) = n.as_i64() {
        NumberValue::Int(i)
    } else if let Some(u) = n.as_u64() {
        NumberValue::UInt(u)
    } else {
        NumberValue::Decimal(n.to_string())
    }
}

/// Relies on serde_yaml::Value's variants: each moves, one arm per variant,
/// into the library's own tree; a tagged scalar collapses to its inner value.
#[verifier::external_body]
fn value_from_yaml(v: serde_yaml::Value) -> ConfigValue {
    match v {
        serde_yaml::Value::Null => ConfigValue::Null,
        serde_yaml::Value::Bool(b) => ConfigValue::Bool(b),
        serde_yaml::Value::Number(n) => ConfigValue::Number(number_from_yaml(n)),
        serde_yaml::Value::String(s) => ConfigValue::Str(s),
        serde_yaml::Value::Sequence(s) => ConfigValue::Sequence(
            s.into_iter().map(value_from_yaml).collect(),
        ),
        serde_yaml::Value::Mapping(m) => ConfigValue::Mapping(
            m.into_iter().map(|kv| (value_from_yaml(kv.0), value_from_yaml(kv.1))).collect(),
        ),
        serde_yaml::Value::Tagged(t) => value_from_yaml(t.value),
    }
}

/// Relies on serde_yaml::from_str: parses the text as one YAML document; the
/// outcome is a function of the text alone. An error carries serde_yaml's
/// description of the fault.
#[verifier::external_body]
fn parse_yaml_text(text: &str) -> (r: Result<ConfigValue, String>)
    ensures
        r is Ok ==> yaml_doc(text@) == Some(r->Ok_0@),
        r is Err ==> yaml_doc(text@) is None,
{
    match serde_yaml::from_str::<serde_yaml::Value>(text) {
        Ok(v) => Ok(value_from_yaml(v)),
        Err(e) => Err(e.to_string()),
    }
}

/// A discovered file: its path and its text as read from disk.
pub struct SourceFile {
    pub path: String,
    pub text: String,
}

/// A parsed configuration file: its path and its tree.
pub struct ConfigFile {
    pub path: String,
    pub value: ConfigValue,
}

/// A fatal loading failure: the offending file and the parser's description
/// of the fault.
#[derive(Debug)]
pub enum LoadError {
    Parse { path: String, detail: String },
}

/// Parses every source text as a YAML document, fail-fast: the first file
/// (in input order) that does not parse aborts the whole load.
pub fn parse_yaml_configs(sources: &Vec<SourceFile>) -> (r: Result<Vec<ConfigFile>, LoadError>)
    ensures
        r is Ok <==> (forall|i: int|
            0 <= i < sources@.len() ==> yaml_doc((#[trigger] sources@[i]).text@) is Some),
        r is Ok ==> {
            let out = r->Ok_0@;
            &&& out.len() == sources@.len()
            &&& forall|i: int|
                0 <= i < out.len() ==> (#[trigger] out[i]).path@ == sources@[i].path@ && Some(
                    out[i].value@,
                ) == yaml_doc(sources@[i].text@)
        },
        r is Err ==> exists|i: int|
            {
                &&& 0 <= i < sources@.len()
                &&& yaml_doc((#[trigger] sources@[i]).text@) is None
                &&& forall|j: int| 0 <= j < i ==> yaml_doc((#[trigger] sources@[j]).text@) is Some
                &&& r->Err_0 matches LoadError::Parse { path, detail: _ } && path@
                    == sources@[i].path@
            },
{
    let mut out: Vec<ConfigFile> = Vec::new();
    let mut i: usize = 0;
    #[verifier::loop_isolation(false)]
    while i < sources.len()
        invariant
            i <= sources@.len(),
            out@.len() == i,
            forall|j: int| 0 <= j < i ==> yaml_doc((#[trigger] sources@[j]).text@) is Some,
            forall|j: int|
                0 <= j < i ==> (#[trigger] out@[j]).path@ == sources@[j].path@ && Some(
                    out@[j].value@,
                ) == yaml_doc(sources@[j].text@),
        decreases sources@.len() - i,
    {
        match parse_yaml_text(sources[i].text.as_str()) {
            Ok(v) => {
                out.push(ConfigFile { path: sources[i].path.clone(), value: v });
            },
            Err(detail) => {
                return Err(LoadError::Parse { path: sources[i].path.clone(), detail });
            },
        }
        i = i + 1;
    }
    Ok(out)
}

} // verus!
