//! JSON texts of lists.
use vstd::prelude::*;
use vstd::string::*;

use crate::text::{dec_i64, dec_int, join, joined, opt_str, strs, strs_push};

verus! {

/// The JSON text of a list of strings, as `serde_json` writes it.
pub uninterp spec fn json_of_strings(v: Seq<Seq<char>>) -> Seq<char>;

/// The list of strings that `serde_json` reads from a text. `None` where the text is not
/// a JSON array of strings.
pub uninterp spec fn strings_of_json(s: Seq<char>) -> Option<Seq<Seq<char>>>;

/// The string under `key` in each element of the JSON array `text`, where it has one.
/// `None` where the text is not a JSON array.
pub uninterp spec fn field_of_json(text: Seq<char>, key: Seq<char>) -> Option<
    Seq<Option<Seq<char>>>,
>;

/// `serde_json::to_string` of a list of strings. Reading the text gives the list back.
#[verifier::external_body]
pub(crate) fn write_strings(v: &Vec<String>) -> (r: String)
    ensures
        r@ == json_of_strings(strs(v@)),
        strings_of_json(r@) == Some(strs(v@)),
{
    serde_json::to_string(v).unwrap_or_default()
}

/// `serde_json::from_str` into a list of strings. What a text holds is left to the name.
#[verifier::external_body]
pub(crate) fn read_strings(s: &str) -> (r: Option<Vec<String>>)
    ensures
        match r {
            Some(v) => strings_of_json(s@) == Some(strs(v@)),
            None => strings_of_json(s@) is None,
        },
{
    serde_json::from_str::<Vec<String>>(s).ok()
}

/// `serde_json::from_str` into a list of values, and of each value the string under
/// `key`. What a text holds is left to the name.
#[verifier::external_body]
pub(crate) fn read_field(s: &str, key: &str) -> (r: Option<Vec<Option<String>>>)
    ensures
        match r {
            Some(v) => field_of_json(s@, key@) == Some(v@.map_values(|o: Option<String>| opt_str(o))),
            None => field_of_json(s@, key@) is None,
        },
{
    let values = serde_json::from_str::<Vec<serde_json::Value>>(s).ok()?;
    Some(values.iter().map(|v| v.get(key)?.as_str().map(|t| t.to_string())).collect())
}

/// The list under `key` in the JSON object `text`, each element as JSON: `None` where there
/// is nothing under the key, `Some(None)` where it is no list.
pub uninterp spec fn array_of_json(text: Seq<char>, key: Seq<char>) -> Option<
    Option<Seq<Seq<char>>>,
>;

/// `serde_json::Value::get` and `serde_json::Value::as_array` on a parsed text. What a text
/// holds is left to the name.
#[verifier::external_body]
pub(crate) fn read_array(text: &str, key: &str) -> (r: Option<Option<Vec<String>>>)
    ensures
        array_of_json(text@, key@) == (match r {
            Some(Some(v)) => Some(Some(strs(v@))),
            Some(None) => Some(None),
            None => None,
        }),
{
    let value = serde_json::from_str::<serde_json::Value>(text).ok()?;
    let under = value.get(key)?;
    Some(under.as_array().map(|a| a.iter().map(|v| v.to_string()).collect()))
}

/// The elements of the JSON array `text`, each as JSON; `None` where it is no array.
pub uninterp spec fn list_of_json(text: Seq<char>) -> Option<Seq<Seq<char>>>;

/// `serde_json::Value::as_array` on a parsed text. What a text holds is left to the name.
#[verifier::external_body]
pub(crate) fn read_list(text: &str) -> (r: Option<Vec<String>>)
    ensures
        list_of_json(text@) == (match r {
            Some(v) => Some(strs(v@)),
            None => None,
        }),
{
    let value = serde_json::from_str::<serde_json::Value>(text).ok()?;
    Some(value.as_array()?.iter().map(|v| v.to_string()).collect())
}

/// The string under `key` in the JSON object `text`.
pub uninterp spec fn text_of_json(text: Seq<char>, key: Seq<char>) -> Option<Seq<char>>;

/// `serde_json::Value::get` and `serde_json::Value::as_str` on a parsed text. What a text
/// holds is left to the name.
#[verifier::external_body]
pub(crate) fn read_text(text: &str, key: &str) -> (r: Option<String>)
    ensures
        opt_str(r) == text_of_json(text@, key@),
{
    let value = serde_json::from_str::<serde_json::Value>(text).ok()?;
    value.get(key)?.as_str().map(|s| s.to_string())
}

/// The integer under `key` in the JSON object `text`, where it is one of 64 bits.
pub uninterp spec fn int_of_json(text: Seq<char>, key: Seq<char>) -> Option<i64>;

/// `serde_json::Value::get` and `serde_json::Value::as_i64` on a parsed text. What a text
/// holds is left to the name.
#[verifier::external_body]
pub(crate) fn read_int(text: &str, key: &str) -> (r: Option<i64>)
    ensures
        r == int_of_json(text@, key@),
{
    let value = serde_json::from_str::<serde_json::Value>(text).ok()?;
    value.get(key)?.as_i64()
}

/// The truth value under `key` in the JSON object `text`.
pub uninterp spec fn bool_of_json(text: Seq<char>, key: Seq<char>) -> Option<bool>;

/// `serde_json::from_str`, then the truth value under a key. What a text holds is left to the
/// name.
#[verifier::external_body]
pub(crate) fn read_flag(text: &str, key: &str) -> (r: Option<bool>)
    ensures
        r == bool_of_json(text@, key@),
{
    let value = serde_json::from_str::<serde_json::Value>(text).ok()?;
    value.get(key)?.as_bool()
}

/// The JSON text of a string.
pub uninterp spec fn json_of_text(s: Seq<char>) -> Seq<char>;

/// `serde_json::to_string` of a string. How a string is quoted is left to the name.
#[verifier::external_body]
pub(crate) fn write_text(s: &str) -> (r: String)
    ensures
        r@ == json_of_text(s@),
{
    serde_json::to_string(s).unwrap_or_default()
}

/// The JSON text of a list of integers.
pub open spec fn json_of_ints(v: Seq<int>) -> Seq<char> {
    "["@ + join(v.map_values(|n: int| dec_int(n)), ","@) + "]"@
}

/// The JSON text of a list of integers.
pub fn write_ints(v: &Vec<i64>) -> (r: String)
    ensures
        r@ == json_of_ints(v@.map_values(|n: i64| n as int)),
{
    let ghost texts = v@.map_values(|n: i64| n as int).map_values(|n: int| dec_int(n));
    let mut parts: Vec<String> = Vec::new();
    let mut i: usize = 0;
    while i < v.len()
        invariant
            i <= v@.len(),
            texts == v@.map_values(|n: i64| n as int).map_values(|n: int| dec_int(n)),
            strs(parts@) == texts.take(i as int),
        decreases v@.len() - i,
    {
        let t = dec_i64(v[i]);
        proof {
            strs_push(parts@, t);
        }
        parts.push(t);
        i += 1;
        assert(strs(parts@) =~= texts.take(i as int));
    }
    assert(strs(parts@) =~= texts);
    "[".to_owned().concat(&joined(&parts, ",")).concat("]")
}

} // verus!
