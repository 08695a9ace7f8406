use crate::text::str_eq;
use vstd::prelude::*;

verus! {

/// The texts of one language, as pairs of key and text with distinct keys.
pub type BundleMap = Vec<(String, String)>;

/// What `serde_json::from_str::<HashMap<String, String>>` gives for a text: the
/// object's map from keys to texts, or `None` when the text is not a JSON object
/// of strings.
pub uninterp spec fn json_string_map(text: Seq<char>) -> Option<Map<Seq<char>, Seq<char>>>;

/// The map the pairs stand for.
pub open spec fn entries_map(v: Seq<(String, String)>) -> Map<Seq<char>, Seq<char>>
    decreases v.len(),
{
    if v.len() == 0 {
        Map::empty()
    } else {
        entries_map(v.drop_last()).insert(v.last().0@, v.last().1@)
    }
}

/// No key occurs twice.
pub open spec fn keys_unique(v: Seq<(String, String)>) -> bool {
    forall|i: int, j: int| 0 <= i < v.len() && 0 <= j < v.len() && i != j ==> v[i].0@ != v[j].0@
}

/// The bundle a text gives: its JSON object of strings, or nothing when the text
/// is no such object.
pub open spec fn parsed_bundle(text: Seq<char>) -> Map<Seq<char>, Seq<char>> {
    match json_string_map(text) {
        Some(m) => m,
        None => Map::empty(),
    }
}

/// Calls `serde_json::from_str` for a map of strings and lists the map's pairs.
/// The contract names the parsed map; JSON's grammar is not restated here, and
/// the order of the pairs (a hash map's order) is left open.
#[verifier::external_body]
fn parse_json_string_map(text: &str) -> (r: Option<Vec<(String, String)>>)
    ensures
        r is Some <==> json_string_map(text@) is Some,
        r matches Some(v) ==> keys_unique(v@) && entries_map(v@) == json_string_map(text@).unwrap(),
{
    match serde_json::from_str::<std::collections::HashMap<String, String>>(text) {
        Ok(map) => Some(map.into_iter().collect()),
        Err(_) => None,
    }
}

/// Reads a bundle from JSON text; text that is not a JSON object of strings gives
/// an empty bundle.
pub fn parse_bundle(text: &str) -> (r: BundleMap)
    ensures
        keys_unique(r@),
        entries_map(r@) == parsed_bundle(text@),
{
    bundle_or_empty(parse_json_string_map(text))
}

/// The bundle of a parse result: its pairs, or none when the text did not parse.
pub fn bundle_or_empty(parsed: Option<BundleMap>) -> (r: BundleMap)
    ensures
        r@ == (match parsed {
            Some(v) => v@,
            None => Seq::empty(),
        }),
{
    match parsed {
        Some(v) => v,
        None => Vec::new(),
    }
}

/// With distinct keys, each pair is in the map.
pub proof fn lemma_entries_map_has(v: Seq<(String, String)>, i: int)
    requires
        keys_unique(v),
        0 <= i < v.len(),
    ensures
        entries_map(v).contains_key(v[i].0@),
        entries_map(v)[v[i].0@] == v[i].1@,
    decreases v.len(),
{
    if i < v.len() - 1 {
        let init = v.drop_last();
        assert(init[i] == v[i]);
        assert forall|a: int, b: int|
            0 <= a < init.len() && 0 <= b < init.len() && a != b implies init[a].0@ != init[b].0@ by {
            assert(init[a] == v[a] && init[b] == v[b]);
        }
        lemma_entries_map_has(init, i);
        assert(v[v.len() - 1].0@ != v[i].0@);
    }
}

/// A key of no pair is not in the map.
pub proof fn lemma_entries_map_lacks(v: Seq<(String, String)>, k: Seq<char>)
    requires
        forall|i: int| 0 <= i < v.len() ==> v[i].0@ != k,
    ensures
        !entries_map(v).contains_key(k),
    decreases v.len(),
{
    if v.len() > 0 {
        let init = v.drop_last();
        assert forall|i: int| 0 <= i < init.len() implies init[i].0@ != k by {
            assert(init[i] == v[i]);
        }
        lemma_entries_map_lacks(init, k);
        assert(v[v.len() - 1].0@ != k);
    }
}

/// Looks a key up in a bundle.
pub fn bundle_get<'a>(bundle: &'a BundleMap, key: &str) -> (r: Option<&'a String>)
    requires
        keys_unique(bundle@),
    ensures
        r is Some <==> entries_map(bundle@).contains_key(key@),
        r matches Some(v) ==> v@ == entries_map(bundle@)[key@],
{
    let mut i: usize = 0;
    while i < bundle.len()
        invariant
            i <= bundle@.len(),
            keys_unique(bundle@),
            forall|j: int| 0 <= j < i ==> bundle@[j].0@ != key@,
        decreases bundle@.len() - i,
    {
        if str_eq(bundle[i].0.as_str(), key) {
            proof {
                lemma_entries_map_has(bundle@, i as int);
            }
            return Some(&bundle[i].1);
        }
        i += 1;
    }
    proof {
        lemma_entries_map_lacks(bundle@, key@);
    }
    None
}

} // verus!
