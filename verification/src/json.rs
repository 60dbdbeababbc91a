//! JSON objects, as far as the library reads and writes them: members that are
//! texts, counts or lists of numbers. Numbers travel as binary64 bit patterns.

use vstd::prelude::*;

use crate::float_bits::is_finite64;

verus! {

/// `serde_json::Value`, a JSON value.
#[verifier::external_type_specification]
#[verifier::external_body]
pub struct ExValue(serde_json::Value);

/// The names of the members of `v`; empty where `v` is no object.
pub uninterp spec fn member_names(v: serde_json::Value) -> Set<Seq<char>>;

/// The members of `v` that are strings.
pub uninterp spec fn text_members(v: serde_json::Value) -> Map<Seq<char>, Seq<char>>;

/// The members of `v` that are integers from 0 to `u64::MAX`.
pub uninterp spec fn count_members(v: serde_json::Value) -> Map<Seq<char>, u64>;

/// The members of `v` that are arrays: for each item the binary64 nearest to
/// it, or None where it is no number.
pub uninterp spec fn list_members(v: serde_json::Value) -> Map<Seq<char>, Seq<Option<u64>>>;

/// `serde_json::Value::get` and `as_str`: the string member `key`.
#[verifier::external_body]
pub(crate) fn text_member(v: &serde_json::Value, key: &str) -> (r: Option<String>)
    ensures
        r is Some <==> text_members(*v).contains_key(key@),
        r matches Some(s) ==> s@ == text_members(*v)[key@],
{
    v.get(key).and_then(|m| m.as_str()).map(|s| s.to_string())
}

/// `serde_json::Value::get` and `as_u64`: the integer member `key`.
#[verifier::external_body]
pub(crate) fn count_member(v: &serde_json::Value, key: &str) -> (r: Option<u64>)
    ensures
        r is Some <==> count_members(*v).contains_key(key@),
        r matches Some(n) ==> n == count_members(*v)[key@],
{
    v.get(key).and_then(|m| m.as_u64())
}

/// `serde_json::Value::get` and `as_array`, and `as_f64` on each item: the
/// array member `key`.
#[verifier::external_body]
pub(crate) fn list_member(v: &serde_json::Value, key: &str) -> (r: Option<Vec<Option<u64>>>)
    ensures
        r is Some <==> list_members(*v).contains_key(key@),
        r matches Some(list) ==> list@ == list_members(*v)[key@],
{
    let list = v.get(key).and_then(|m| m.as_array())?;
    Some(list.iter().map(|item| item.as_f64().map(|n| n.to_bits())).collect())
}

/// The members that `pairs` name, each with its text.
pub open spec fn text_map(pairs: Seq<(String, String)>) -> Map<Seq<char>, Seq<char>>
    decreases pairs.len(),
{
    if pairs.len() == 0 {
        Map::empty()
    } else {
        text_map(pairs.drop_last()).insert(pairs.last().0@, pairs.last().1@)
    }
}

/// The members that `pairs` name, each with its count.
pub open spec fn count_map(pairs: Seq<(String, u64)>) -> Map<Seq<char>, u64>
    decreases pairs.len(),
{
    if pairs.len() == 0 {
        Map::empty()
    } else {
        count_map(pairs.drop_last()).insert(pairs.last().0@, pairs.last().1)
    }
}

/// What a list of bit patterns reads back as: the finite ones are numbers.
pub open spec fn numbers(list: Seq<u64>) -> Seq<Option<u64>> {
    list.map_values(
        |b: u64|
            if is_finite64(b) {
                Some(b)
            } else {
                None
            },
    )
}

/// The members that `pairs` name, each with its numbers.
pub open spec fn list_map(pairs: Seq<(String, Vec<u64>)>) -> Map<Seq<char>, Seq<Option<u64>>>
    decreases pairs.len(),
{
    if pairs.len() == 0 {
        Map::empty()
    } else {
        list_map(pairs.drop_last()).insert(pairs.last().0@, numbers(pairs.last().1@))
    }
}

/// Collecting pairs into a `serde_json::Map`, as a `serde_json::Value`: an
/// object with these members and no others. `serde_json::Number::from_f64`
/// makes a number of each finite item of a list; the others become null.
#[verifier::external_body]
pub(crate) fn object_of(
    texts: Vec<(String, String)>,
    counts: Vec<(String, u64)>,
    lists: Vec<(String, Vec<u64>)>,
) -> (v: serde_json::Value)
    requires
        text_map(texts@).dom().disjoint(count_map(counts@).dom()),
        text_map(texts@).dom().disjoint(list_map(lists@).dom()),
        count_map(counts@).dom().disjoint(list_map(lists@).dom()),
    ensures
        member_names(v) == text_map(texts@).dom() + count_map(counts@).dom() + list_map(
            lists@,
        ).dom(),
        text_members(v) == text_map(texts@),
        count_members(v) == count_map(counts@),
        list_members(v) == list_map(lists@),
{
    let item = |b: u64| serde_json::Number::from_f64(bytemuck::cast(b)).into();
    let list = |l: Vec<u64>| l.into_iter().map(item).collect::<Vec<serde_json::Value>>();
    let texts = texts.into_iter().map(|(k, t)| (k, serde_json::Value::from(t)));
    let counts = counts.into_iter().map(|(k, n)| (k, serde_json::Value::from(n)));
    let lists = lists.into_iter().map(|(k, l)| (k, serde_json::Value::from(list(l))));
    texts.chain(counts).chain(lists).collect()
}

} // verus!
