//! Questions to a JSON settings file.
//!
//! Each question reads the file anew: it is a few kilobytes, and what is answered is then a
//! function of the file and the place alone. A place is a JSON pointer, such as
//! `/features/frame_shift`.

use vstd::prelude::*;

verus! {

/// What `serde_json::from_slice` says is wrong with a file, if it is no JSON.
pub uninterp spec fn json_error(bytes: Seq<u8>) -> Option<Seq<char>>;

/// The text at a place of a JSON file: `serde_json::Value::as_str` of it.
pub uninterp spec fn json_text(bytes: Seq<u8>, place: Seq<char>) -> Option<Seq<char>>;

/// The number at a place of a JSON file, as double-precision bits: `serde_json::Value::as_f64` of
/// it.
pub uninterp spec fn json_number(bytes: Seq<u8>, place: Seq<char>) -> Option<u64>;

/// The count at a place of a JSON file: `serde_json::Value::as_u64` of it.
pub uninterp spec fn json_count(bytes: Seq<u8>, place: Seq<char>) -> Option<u64>;

/// The truth value at a place of a JSON file: `serde_json::Value::as_bool` of it.
pub uninterp spec fn json_flag(bytes: Seq<u8>, place: Seq<char>) -> Option<bool>;

/// What stands at a place of a JSON file, written out by `serde_json::Value::to_string`.
pub uninterp spec fn json_shown(bytes: Seq<u8>, place: Seq<char>) -> Option<Seq<char>>;

/// The texts of an optional string.
pub open spec fn optional_text(s: Option<String>) -> Option<Seq<char>> {
    match s {
        Some(s) => Some(s@),
        None => None,
    }
}

/// Calls `serde_json::from_slice` and keeps its error: the claim is that it depends on the bytes
/// alone.
#[verifier::external_body]
pub(crate) fn find_error(bytes: &[u8]) -> (r: Option<String>)
    ensures
        optional_text(r) == json_error(bytes@),
{
    serde_json::from_slice::<serde_json::Value>(bytes).err().map(|e| e.to_string())
}

/// Calls `serde_json::from_slice`, `serde_json::Value::pointer` and `serde_json::Value::as_str`: the
/// claim is that the text depends on the bytes and the place alone. There is none where the file is
/// no JSON, the place is not in it, or something else than a text stands there.
#[verifier::external_body]
pub(crate) fn find_text(bytes: &[u8], place: &str) -> (r: Option<String>)
    ensures
        optional_text(r) == json_text(bytes@, place@),
{
    let value = serde_json::from_slice::<serde_json::Value>(bytes).ok()?;
    value.pointer(place)?.as_str().map(|s| s.to_string())
}

/// Calls `serde_json::from_slice`, `serde_json::Value::pointer` and `serde_json::Value::as_f64`: the
/// claim is that the number depends on the bytes and the place alone.
#[verifier::external_body]
pub(crate) fn find_number(bytes: &[u8], place: &str) -> (r: Option<u64>)
    ensures
        r == json_number(bytes@, place@),
{
    let value = serde_json::from_slice::<serde_json::Value>(bytes).ok()?;
    value.pointer(place)?.as_f64().map(|v| v.to_bits())
}

/// Calls `serde_json::from_slice`, `serde_json::Value::pointer` and `serde_json::Value::as_u64`: the
/// claim is that the count depends on the bytes and the place alone.
#[verifier::external_body]
pub(crate) fn find_count(bytes: &[u8], place: &str) -> (r: Option<u64>)
    ensures
        r == json_count(bytes@, place@),
{
    let value = serde_json::from_slice::<serde_json::Value>(bytes).ok()?;
    value.pointer(place)?.as_u64()
}

/// Calls `serde_json::from_slice`, `serde_json::Value::pointer` and `serde_json::Value::as_bool`:
/// the claim is that the truth value depends on the bytes and the place alone.
#[verifier::external_body]
pub(crate) fn find_flag(bytes: &[u8], place: &str) -> (r: Option<bool>)
    ensures
        r == json_flag(bytes@, place@),
{
    let value = serde_json::from_slice::<serde_json::Value>(bytes).ok()?;
    value.pointer(place)?.as_bool()
}

/// Calls `serde_json::from_slice`, `serde_json::Value::pointer` and `serde_json::Value::to_string`:
/// the claim is that the text depends on the bytes and the place alone.
#[verifier::external_body]
pub(crate) fn find_shown(bytes: &[u8], place: &str) -> (r: Option<String>)
    ensures
        optional_text(r) == json_shown(bytes@, place@),
{
    let value = serde_json::from_slice::<serde_json::Value>(bytes).ok()?;
    value.pointer(place).map(|v| v.to_string())
}

} // verus!
