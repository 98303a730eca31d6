use vstd::prelude::*;
use serde_json::Value as JsonValue;
use crate::value::{Doc, Value, unique_keys, entries_wf, entries_view};
use crate::diff::{Difference, diffs_view, diffs_wf, is_diff_of, diff_values};
use crate::merge::{merge, merge_doc};

verus! {

/// The document described by an outside `serde_json` value: its tree
/// of nulls, booleans, numbers (signed 64-bit integers as integers,
/// any other number apart as its decimal text), strings, arrays and
/// objects.
pub uninterp spec fn doc_of(v: serde_json::Value) -> Doc;

/// Whether every number in an outside `serde_json` value prints
/// canonically, so that `doc_of` determines the value's rendering;
/// this holds of everything the library builds or parses.
pub uninterp spec fn is_clean(v: serde_json::Value) -> bool;

/// Whether this text is the canonical decimal form of a
/// serde_json::Number outside the signed 64-bit range: it parses as
/// such a number, and that number prints as this text again.  The
/// crate turns on serde_json's float_roundtrip feature, under which
/// parsing is exact on printed numbers, so this holds of every number
/// text serde_json itself prints.
pub uninterp spec fn num_text_ok(s: Seq<char>) -> bool;

/// What `serde_json::from_str` yields on a text: the parsed document,
/// or nothing when the text is not valid JSON.
pub uninterp spec fn parse_doc(s: Seq<char>) -> Option<Doc>;

/// What `serde_json::to_string` yields on a document.
pub uninterp spec fn render_doc(d: Doc) -> Seq<char>;

/// What `serde_json::to_string_pretty` yields on a document.
pub uninterp spec fn render_doc_pretty(d: Doc) -> Seq<char>;

#[verifier::external_type_specification]
#[verifier::external_body]
pub struct ExSerdeValue(JsonValue);

/// Relies on serde_json::from_str: whether a text parses, and to what
/// document, is a function of the text alone.
#[verifier::external_body]
fn parse_json(s: &str) -> (r: Option<serde_json::Value>)
    ensures
        r matches Some(v) ==> parse_doc(s@) == Some(doc_of(v)),
        r is None <==> parse_doc(s@) is None,
{
    serde_json::from_str::<serde_json::Value>(s).ok()
}

/// Relies on serde_json::Value's variant structure: converts an
/// outside document one-for-one into the library's value type, reading
/// integers through serde_json::Number::as_i64 and any other number as
/// its decimal text, which serde_json prints canonically and (with
/// float_roundtrip on) parses back exactly.
#[verifier::external_body]
fn from_serde(v: &serde_json::Value) -> (r: Value)
    ensures
        r@ == doc_of(*v),
        r.wf(),
        r@ is BigNumber ==> num_text_ok(r@->BigNumber_0),
{
    match v {
        serde_json::Value::Null => Value::Null,
        serde_json::Value::Bool(x) => Value::Bool(*x),
        serde_json::Value::Number(n) => match n.as_i64() {
            Some(x) => Value::Number(x),
            None => Value::BigNumber(n.to_string()),
        },
        serde_json::Value::String(x) => Value::Text(x.clone()),
        serde_json::Value::Array(xs) => Value::Array(xs.iter().map(from_serde).collect()),
        serde_json::Value::Object(m) => Value::Object(
            m.iter().map(|(k, x)| (k.clone(), from_serde(x))).collect(),
        ),
    }
}

/// Relies on serde_json::Value's variant structure: builds, one
/// variant for one, the outside document that a well-formed library
/// value describes, through serde_json::Number::from on integers and
/// serde_json::Number's text parsing on numbers held as text.
#[verifier::external_body]
fn to_serde(v: &Value) -> (r: serde_json::Value)
    ensures
        v.wf() ==> doc_of(r) == v@,
        is_clean(r),
{
    match v {
        Value::Null => serde_json::Value::Null,
        Value::Bool(x) => serde_json::Value::Bool(*x),
        Value::Number(x) => serde_json::Value::Number(serde_json::Number::from(*x)),
        Value::BigNumber(s) => match s.parse::<serde_json::Number>() {
            Ok(n) => serde_json::Value::Number(n),
            Err(_) => serde_json::Value::Null,
        },
        Value::Text(s) => serde_json::Value::String(s.clone()),
        Value::Array(xs) => serde_json::Value::Array(xs.iter().map(to_serde).collect()),
        Value::Object(es) => serde_json::Value::Object(
            es.iter().map(|(k, x)| (k.clone(), to_serde(x))).collect(),
        ),
    }
}

/// Whether every chain of containers nested in the document is at most
/// `n` deep, so that its rendering stays inside the parser's recursion
/// limit.
pub open spec fn depth_at_most(d: Doc, n: int) -> bool
    decreases d,
{
    match d {
        Doc::Array(items) => n >= 1 && (forall|i: int|
            0 <= i < items.len() ==> depth_at_most(#[trigger] items[i], n - 1)),
        Doc::Object(m) => n >= 1 && (forall|k: Seq<char>|
            m.dom().contains(k) ==> depth_at_most(#[trigger] m[k], n - 1)),
        _ => true,
    }
}

/// Relies on serde_json::to_string: on clean values the rendered text
/// is a function of the document alone (object keys come out sorted,
/// numbers print canonically, so nothing else shows through), and a
/// document nested less deeply than the parser's 128-level recursion
/// limit parses back from its rendering unchanged -- exactly on
/// numbers too, since float_roundtrip is on.
#[verifier::external_body]
fn serde_to_text(v: &serde_json::Value) -> (r: String)
    ensures
        is_clean(*v) ==> r@ == render_doc(doc_of(*v)),
        is_clean(*v) && depth_at_most(doc_of(*v), 127) ==> parse_doc(r@) == Some(doc_of(*v)),
{
    serde_json::to_string(v).unwrap_or_else(|_| String::new())
}

/// Relies on serde_json::to_string_pretty: on values free of data the
/// library cannot carry, the indented text is a function of the
/// document alone, as for serde_to_text.
#[verifier::external_body]
fn serde_to_text_pretty(v: &serde_json::Value) -> (r: String)
    ensures
        is_clean(*v) ==> r@ == render_doc_pretty(doc_of(*v)),
{
    serde_json::to_string_pretty(v).unwrap_or_else(|_| String::new())
}

/// Parses a JSON text into a document value, or nothing when the text
/// is not valid JSON.
pub fn parse_document(s: &str) -> (r: Option<Value>)
    ensures
        r matches Some(v) ==> parse_doc(s@) == Some(v@) && v.wf(),
        r is None <==> parse_doc(s@) is None,
{
    match parse_json(s) {
        Some(sv) => Some(from_serde(&sv)),
        None => None,
    }
}

/// Renders a well-formed document value as JSON text; the rendering of
/// a document nested less deeply than the parser's recursion limit
/// parses back to the same document.
pub fn to_json_text(v: &Value) -> (r: String)
    ensures
        v.wf() ==> r@ == render_doc(v@),
        v.wf() && depth_at_most(v@, 127) ==> parse_doc(r@) == Some(v@),
{
    let sv = to_serde(v);
    serde_to_text(&sv)
}

/// Renders a well-formed document value as indented JSON text.
pub fn to_json_text_pretty(v: &Value) -> (r: String)
    ensures
        v.wf() ==> r@ == render_doc_pretty(v@),
{
    let sv = to_serde(v);
    serde_to_text_pretty(&sv)
}

/// The document a text parses to, or the given fallback when it does
/// not parse.
pub open spec fn parse_or(s: Seq<char>, fallback: Doc) -> Doc {
    match parse_doc(s) {
        Some(d) => d,
        None => fallback,
    }
}

/// The empty object document.
pub open spec fn empty_object() -> Doc {
    Doc::Object(Map::empty())
}

/// Merges two JSON texts and renders the result: each text that does
/// not parse counts as the empty object, the documents are merged with
/// the second side winning, and the merged document is rendered.  When
/// the merged document is nested less deeply than the parser's
/// recursion limit, the result parses back to it exactly.
pub fn merge_jsons(json1: &str, json2: &str) -> (r: String)
    ensures
        r@ == render_doc(
            merge_doc(parse_or(json1@, empty_object()), parse_or(json2@, empty_object())),
        ),
        depth_at_most(
            merge_doc(parse_or(json1@, empty_object()), parse_or(json2@, empty_object())),
            127,
        ) ==> parse_doc(r@) == Some(
            merge_doc(parse_or(json1@, empty_object()), parse_or(json2@, empty_object())),
        ),
{
    let a = match parse_document(json1) {
        Some(v) => v,
        None => Value::Object(Vec::new()),
    };
    let b = match parse_document(json2) {
        Some(v) => v,
        None => Value::Object(Vec::new()),
    };
    proof {
        assert(unique_keys(Seq::<(String, Value)>::empty()));
        assert(entries_wf(Seq::<(String, Value)>::empty()));
        assert(entries_view(Seq::<(String, Value)>::empty()) =~= Map::<Seq<char>, Doc>::empty());
        assert(a.wf() && b.wf());
        assert(a@ == parse_or(json1@, empty_object()));
        assert(b@ == parse_or(json2@, empty_object()));
    }
    let m = merge(&a, &b);
    to_json_text(&m)
}

/// Detects the differences between two JSON texts: each text that does
/// not parse counts as the null document, so that a malformed side
/// surfaces as a whole-document replacement against any other document
/// it differs from.
pub fn detect_differences(json1: &str, json2: &str) -> (r: Vec<Difference>)
    ensures
        is_diff_of(
            parse_or(json1@, Doc::Null),
            parse_or(json2@, Doc::Null),
            diffs_view(r@),
        ),
        diffs_wf(r@),
{
    let a = match parse_document(json1) {
        Some(v) => v,
        None => Value::Null,
    };
    let b = match parse_document(json2) {
        Some(v) => v,
        None => Value::Null,
    };
    diff_values(&a, &b)
}

} // verus!
