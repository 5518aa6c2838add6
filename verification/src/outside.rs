//! The boundary to the outside crates that back the library's collections:
//! `radix_trie` stores the tokenized dictionary for prefix queries, and
//! `dashmap` holds the interner's encode map and the prefix cache table.
//! Every item here is believed, not verified; each doc comment names the
//! outside function relied on.
use vstd::prelude::*;

use dashmap::DashMap;
use radix_trie::Trie;
use radix_trie::TrieCommon;

verus! {

#[verifier::external_type_specification]
#[verifier::external_body]
#[verifier::reject_recursive_types(K)]
#[verifier::reject_recursive_types(V)]
#[verifier::reject_recursive_types(S)]
pub struct ExDashMap<K, V, S>(DashMap<K, V, S>);

#[verifier::external_type_specification]
#[verifier::external_body]
#[verifier::reject_recursive_types(K)]
#[verifier::reject_recursive_types(V)]
pub struct ExTrie<K, V>(Trie<K, V>);

/// The set of keys held by a trie of token words.
pub uninterp spec fn trie_words(t: Trie<Vec<u16>, ()>) -> Set<Seq<u16>>;

/// Relies on radix_trie::Trie::new: the new trie holds no keys.
#[verifier::external_body]
pub(crate) fn trie_new() -> (t: Trie<Vec<u16>, ()>)
    ensures
        trie_words(t) == Set::<Seq<u16>>::empty(),
{
    Trie::new()
}

/// Relies on radix_trie::Trie::insert: afterwards the trie holds the given
/// key besides everything it held before.
#[verifier::external_body]
pub(crate) fn trie_insert(t: &mut Trie<Vec<u16>, ()>, key: Vec<u16>)
    ensures
        trie_words(*final(t)) == trie_words(*old(t)).insert(key@),
{
    t.insert(key, ());
}

/// Relies on radix_trie::Trie::get_raw_descendant and SubTrie::keys: the
/// subtrie below a prefix holds exactly the stored keys that the prefix is
/// a prefix of. `Vec<u16>` keys are encoded fixed-width (two bytes per
/// element, big-endian), so byte-level prefixes coincide with element-level
/// prefixes.
#[verifier::external_body]
pub(crate) fn trie_descendant_keys(t: &Trie<Vec<u16>, ()>, prefix: &Vec<u16>) -> (r: Vec<
    Vec<u16>,
>)
    ensures
        forall|w: Seq<u16>|
            #[trigger] r.deep_view().contains(w) <==> (trie_words(*t).contains(w)
                && prefix@.is_prefix_of(w)),
{
    t.get_raw_descendant(prefix).into_iter().flat_map(|s| s.keys()).cloned().collect()
}

/// The chunk-to-token mapping held by the interner's encode map.
pub uninterp spec fn chunk_token_map(m: DashMap<String, u16>) -> Map<Seq<char>, u16>;

/// Relies on dashmap::DashMap::new: the new map is empty.
#[verifier::external_body]
pub(crate) fn chunk_map_new() -> (m: DashMap<String, u16>)
    ensures
        forall|k: Seq<char>| !chunk_token_map(m).contains_key(k),
{
    DashMap::new()
}

/// Relies on dashmap::DashMap::insert: afterwards the map sends the given
/// key to the given value and is otherwise unchanged.
#[verifier::external_body]
pub(crate) fn chunk_map_insert(m: &mut DashMap<String, u16>, k: String, v: u16)
    ensures
        chunk_token_map(*final(m)) == chunk_token_map(*old(m)).insert(k@, v),
{
    m.insert(k, v);
}

/// Relies on dashmap::DashMap::get: returns the value the map sends the key
/// to, or nothing when the key is absent.
#[verifier::external_body]
pub(crate) fn chunk_map_get(m: &DashMap<String, u16>, k: &str) -> (r: Option<u16>)
    ensures
        r == if chunk_token_map(*m).contains_key(k@) {
            Some(chunk_token_map(*m)[k@])
        } else {
            None::<u16>
        },
{
    m.get(k).map(|e| *e.value())
}

/// The prefix-to-extensions mapping held by the cache table.
pub uninterp spec fn prefix_table(m: DashMap<Vec<u16>, Vec<Vec<u16>>>) -> Map<
    Seq<u16>,
    Seq<Seq<u16>>,
>;

/// Relies on dashmap::DashMap::new: the new table is empty.
#[verifier::external_body]
pub(crate) fn table_new() -> (m: DashMap<Vec<u16>, Vec<Vec<u16>>>)
    ensures
        forall|k: Seq<u16>| !prefix_table(m).contains_key(k),
{
    DashMap::new()
}

/// Relies on dashmap::DashMap::insert: afterwards the table sends the given
/// key to the given value and is otherwise unchanged.
#[verifier::external_body]
pub(crate) fn table_insert(m: &mut DashMap<Vec<u16>, Vec<Vec<u16>>>, k: Vec<u16>, v: Vec<Vec<u16>>)
    ensures
        prefix_table(*final(m)) == prefix_table(*old(m)).insert(k@, v.deep_view()),
{
    m.insert(k, v);
}

/// Relies on dashmap::DashMap::get: returns a copy of the value the table
/// sends the key to, or nothing when the key is absent.
#[verifier::external_body]
pub(crate) fn table_get(m: &DashMap<Vec<u16>, Vec<Vec<u16>>>, k: &Vec<u16>) -> (r: Option<
    Vec<Vec<u16>>,
>)
    ensures
        match r {
            Some(v) => prefix_table(*m).contains_key(k@) && v.deep_view() == prefix_table(*m)[k@],
            None => !prefix_table(*m).contains_key(k@),
        },
{
    m.get(k).map(|e| e.value().clone())
}

/// Relies on <[String]>::sort_unstable: reorders the elements in place and
/// neither adds, drops nor changes any of them.
#[verifier::external_body]
pub(crate) fn sort_strings(v: &mut Vec<String>)
    ensures
        final(v).deep_view().to_multiset() == old(v).deep_view().to_multiset(),
{
    v.sort_unstable();
}

} // verus!
