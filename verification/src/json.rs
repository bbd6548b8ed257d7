//! The persisted form of an index: one JSON object that maps each term to
//! the array of its document numbers.

use vstd::prelude::*;
use std::collections::BTreeMap;

verus! {

/// The error type of the crate serde_json. Nothing is known of a value of it.
#[verifier::external_type_specification]
#[verifier::external_body]
pub struct ExJsonError(serde_json::Error);

/// What a list of terms with their document numbers holds.
pub open spec fn pairs(v: Seq<(String, Vec<u64>)>) -> Seq<(Seq<char>, Seq<u64>)> {
    Seq::new(v.len(), |i: int| (v[i].0@, v[i].1@))
}

/// The JSON text that serde_json writes for the map from each term of
/// `entries` to its document numbers, or `None` where it refuses to.
pub uninterp spec fn json_text(entries: Seq<(Seq<char>, Seq<u64>)>) -> Option<Seq<char>>;

/// The terms and document numbers that serde_json reads from `text` as a map
/// from strings to arrays of unsigned 64-bit numbers, in the order of the
/// terms; `None` where the text is no such JSON object.
pub uninterp spec fn json_entries(text: Seq<char>) -> Option<Seq<(Seq<char>, Seq<u64>)>>;

/// `serde_json::to_string`, called on a `BTreeMap` from the terms of
/// `entries` to their document numbers. What comes back depends on `entries`
/// alone (the map is walked in the order of its keys) and is only given the
/// name [`json_text`].
#[verifier::external_body]
pub(crate) fn encode_entries(entries: &Vec<(String, Vec<u64>)>) -> (r: Result<
    String,
    serde_json::Error,
>)
    ensures
        match r {
            Ok(text) => json_text(pairs(entries@)) == Some(text@),
            Err(_) => json_text(pairs(entries@)) is None,
        },
{
    let map: BTreeMap<&String, &Vec<u64>> = entries.iter().map(|e| (&e.0, &e.1)).collect();
    serde_json::to_string(&map)
}

/// `serde_json::from_str`, called for a `BTreeMap` from strings to vectors of
/// `u64`, whose entries are handed on in the order of their keys. What comes
/// back depends on `text` alone and is only given the name [`json_entries`].
#[verifier::external_body]
pub(crate) fn decode_entries(text: &str) -> (r: Result<Vec<(String, Vec<u64>)>, serde_json::Error>)
    ensures
        match r {
            Ok(entries) => json_entries(text@) == Some(pairs(entries@)),
            Err(_) => json_entries(text@) is None,
        },
{
    let map: BTreeMap<String, Vec<u64>> = serde_json::from_str(text)?;
    Ok(map.into_iter().collect())
}

} // verus!
