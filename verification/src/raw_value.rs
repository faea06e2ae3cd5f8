//! The value flattener: canonicalizes an arbitrary parsed metadata value tree
//! into a single scalar string.

use vstd::prelude::*;
use crate::table::CsvProcessor;

verus! {

/// A parsed-but-untyped metadata value, as produced by a structured-data
/// parser. Immutable once parsed. `Number` carries the parser's own decimal
/// rendering of the number, so no precision normalization happens here.
pub enum RawValue {
    Null,
    Bool(bool),
    Number(String),
    Text(String),
    Sequence(Vec<RawValue>),
    Mapping(Vec<(RawValue, RawValue)>),
}

/// The sentinel emitted for a nested mapping, the one value shape the
/// flattener does not support.
pub open spec fn mapping_sentinel() -> Seq<char> {
    "unsupported: nested mapping"@
}

/// The canonical string of a value: empty for null, lowercase literals for
/// booleans, the decimal text for numbers, the string itself for strings,
/// the comma-joined flattening of the elements for sequences, and the
/// unsupported-shape sentinel for mappings. Total: defined for every tree.
pub open spec fn flatten_spec(v: RawValue) -> Seq<char>
    decreases v, 0int,
{
    match v {
        RawValue::Null => Seq::empty(),
        RawValue::Bool(b) => if b {
            "true"@
        } else {
            "false"@
        },
        RawValue::Number(s) => s@,
        RawValue::Text(s) => s@,
        RawValue::Sequence(items) => flatten_items(items, 0),
        RawValue::Mapping(_) => mapping_sentinel(),
    }
}

/// The canonical strings of `items[i..]`, joined with single commas.
pub open spec fn flatten_items(items: Vec<RawValue>, i: int) -> Seq<char>
    decreases items, 1int, items@.len() - i,
{
    if i < 0 || i >= items@.len() {
        Seq::empty()
    } else if i == items@.len() - 1 {
        flatten_spec(items@[i])
    } else {
        flatten_spec(items@[i]) + seq![','] + flatten_items(items, i + 1)
    }
}

/// Flattening is deterministic: any two results obtained for the same value
/// tree are the same string. (It is also total: `flatten_spec` has no
/// precondition, and `flatten` below accepts every `RawValue`.)
pub proof fn lemma_flatten_deterministic(v: RawValue, r1: Seq<char>, r2: Seq<char>)
    requires
        r1 == flatten_spec(v),
        r2 == flatten_spec(v),
    ensures
        r1 == r2,
{
}

/// Canonicalizes a value tree into its flat string form.
pub fn flatten(value: &RawValue) -> (r: String)
    ensures
        r@ == flatten_spec(*value),
    decreases *value, 0int,
{
    match value {
        RawValue::Null => String::new(),
        RawValue::Bool(b) => {
            if *b {
                String::from_str("true")
            } else {
                String::from_str("false")
            }
        },
        RawValue::Number(s) => s.clone(),
        RawValue::Text(s) => s.clone(),
        RawValue::Sequence(items) => flatten_sequence(items),
        RawValue::Mapping(_) => String::from_str("unsupported: nested mapping"),
    }
}

/// Joins the canonical forms of a sequence's elements with commas.
fn flatten_sequence(items: &Vec<RawValue>) -> (r: String)
    ensures
        r@ == flatten_items(*items, 0),
    decreases *items, 1int,
{
    let mut out = String::new();
    let n = items.len();
    let mut j: usize = 0;
    while j < n
        invariant
            n == items@.len(),
            j <= n,
            out@ + flatten_items(*items, j as int) == flatten_items(*items, 0),
        decreases n - j,
    {
        let piece = flatten(&items[j]);
        proof {
            if j + 1 < n {
                assert(flatten_items(*items, j as int) == flatten_spec(items@[j as int]) + seq![
                    ',',
                ] + flatten_items(*items, j as int + 1));
                assert((out@ + piece@ + ","@) + flatten_items(*items, j as int + 1) == out@
                    + flatten_items(*items, j as int)) by {
                    reveal_strlit(",");
                    assert(","@ =~= seq![',']);
                    assert((out@ + piece@ + ","@) + flatten_items(*items, j as int + 1) =~= out@ + (
                    piece@ + seq![','] + flatten_items(*items, j as int + 1)));
                }
            } else {
                assert(flatten_items(*items, j as int) == flatten_spec(items@[j as int]));
                assert(flatten_items(*items, j as int + 1) =~= Seq::<char>::empty());
                assert((out@ + piece@) + flatten_items(*items, j as int + 1) =~= out@
                    + flatten_items(*items, j as int));
            }
        }
        out.append(piece.as_str());
        if j + 1 < n {
            out.append(",");
        }
        j = j + 1;
    }
    proof {
        assert(flatten_items(*items, n as int) =~= Seq::<char>::empty());
        assert(out@ + Seq::<char>::empty() =~= out@);
    }
    out
}

impl CsvProcessor {
    /// Canonicalizes one parsed value into its flat string form.
    pub fn from_value(value: RawValue) -> (r: String)
        ensures
            r@ == flatten_spec(value),
    {
        flatten(&value)
    }
}

} // verus!
