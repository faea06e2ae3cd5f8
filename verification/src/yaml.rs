//! The trusted boundary to the YAML parser. Everything the core learns about
//! a metadata block's structured content comes through `parse_yaml_documents`;
//! its result is named by the uninterpreted function `yaml_documents`, and all
//! further processing of the parsed values is verified code.

use vstd::prelude::*;
use serde::Deserialize;
use crate::raw_value::RawValue;

verus! {

#[verifier::external_type_specification]
#[verifier::external_body]
pub struct ExYamlValue(serde_yaml::Value);

/// What the YAML parser reads from a metadata block: `None` when the block is
/// not valid YAML, otherwise one `RawValue` per document, in block order.
/// The parse depends on the block text alone.
pub uninterp spec fn yaml_documents(s: Seq<char>) -> Option<Seq<RawValue>>;

/// Relies on `serde_yaml::Value`: maps one parsed value onto the matching
/// `RawValue` variant, variant for variant; a number becomes the parser's own
/// decimal rendering. A helper of `parse_yaml_documents` below, which states
/// the contract for the combined parse.
#[verifier::external_body]
fn value_to_raw(v: serde_yaml::Value) -> RawValue {
    match v {
        serde_yaml::Value::Null => RawValue::Null,
        serde_yaml::Value::Bool(b) => RawValue::Bool(b),
        serde_yaml::Value::Number(n) => RawValue::Number(n.to_string()),
        serde_yaml::Value::String(s) => RawValue::Text(s),
        serde_yaml::Value::Sequence(items) => RawValue::Sequence(
            items.into_iter().map(value_to_raw).collect(),
        ),
        serde_yaml::Value::Mapping(m) => RawValue::Mapping(
            m.into_iter().map(|(k, w)| (value_to_raw(k), value_to_raw(w))).collect(),
        ),
    }
}

/// Relies on `serde_yaml::Deserializer::from_str`: reads the block as a
/// stream of YAML documents, in order; any malformed document fails the whole
/// block. Mapping entries keep document order (`serde_yaml`'s mapping is an
/// ordered map).
#[verifier::external_body]
pub(crate) fn parse_yaml_documents(text: &str) -> (r: Option<Vec<RawValue>>)
    ensures
        r is Some <==> yaml_documents(text@) is Some,
        r matches Some(docs) ==> yaml_documents(text@) == Some(docs@),
{
    let mut docs: Vec<RawValue> = Vec::new();
    for document in serde_yaml::Deserializer::from_str(text) {
        match serde_yaml::Value::deserialize(document) {
            Ok(value) => docs.push(value_to_raw(value)),
            Err(_) => return None,
        }
    }
    Some(docs)
}

} // verus!
