//! Checks that a search link is worth watching: it is a marketplace search
//! with parameters, and the query API reports results for it.
use vstd::prelude::*;
use crate::query::{find_char, first_index};
use crate::text::{chars_of, starts_with_str};

verus! {

/// Whether `body` is one JSON document.
pub uninterp spec fn json_parses(body: Seq<char>) -> bool;

/// The integer at member `inner` of member `outer` of the JSON document
/// `body`, when there is one that fits in an `i64`.
pub uninterp spec fn json_i64_at(body: Seq<char>, outer: Seq<char>, inner: Seq<char>) -> Option<i64>;

/// The origin that every search link must start with.
pub open spec fn search_origin() -> Seq<char> {
    "https://www.tori.fi"@
}

/// Whether `url` is a marketplace search link with a query string.
pub open spec fn is_search_link(url: Seq<char>) -> bool {
    search_origin().len() <= url.len() && url.subrange(0, search_origin().len() as int)
        == search_origin() && first_index(url, '?') is Some
}

/// Whether `url` is a marketplace search link with a query string; any other
/// link is refused before a request is made.
pub fn is_search_url(url: &str) -> (r: bool)
    ensures
        r == is_search_link(url@),
{
    let cs = chars_of(url);
    starts_with_str(&cs, "https://www.tori.fi") && find_char(&cs, '?').is_some()
}

/// Whether the result count of a probe shows results.
pub fn has_results(count: Option<i64>) -> (r: bool)
    ensures
        r == (count matches Some(n) && n > 0),
{
    match count {
        Some(n) => n > 0,
        None => false,
    }
}

/// Relies on `serde_json::from_str`: whether `body` parses as a JSON value.
/// The answer depends on the text alone.
#[verifier::external_body]
fn is_json(body: &str) -> (r: bool)
    ensures
        r == json_parses(body@),
{
    serde_json::from_str::<serde_json::Value>(body).is_ok()
}

/// Relies on `serde_json::from_str`, `Value::get` and `Value::as_i64`: the
/// integer at `outer.inner` of the JSON document `body`, when the document,
/// both members and an integer that fits in an `i64` are there. The answer
/// depends on the three texts alone.
#[verifier::external_body]
fn json_i64_member(body: &str, outer: &str, inner: &str) -> (r: Option<i64>)
    ensures
        r == json_i64_at(body@, outer@, inner@),
{
    serde_json::from_str::<serde_json::Value>(body).ok()?.get(outer)?.get(inner)?.as_i64()
}

/// The count of all results in a query-API response: the integer at
/// `counter_map.all`, or `None` when the body is not JSON or holds none.
pub fn all_results_count(body: &str) -> (r: Option<i64>)
    ensures
        r == (if json_parses(body@) {
            json_i64_at(body@, "counter_map"@, "all"@)
        } else {
            None
        }),
{
    if !is_json(body) {
        return None;
    }
    json_i64_member(body, "counter_map", "all")
}

/// Whether a query-API response reports results: its body is JSON and
/// `counter_map.all` is an integer above zero.
pub fn response_has_results(body: &str) -> (r: bool)
    ensures
        r == (json_parses(body@) && (json_i64_at(body@, "counter_map"@, "all"@) matches Some(n)
            && n > 0)),
{
    has_results(all_results_count(body))
}

} // verus!
