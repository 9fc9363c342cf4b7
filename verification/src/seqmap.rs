//! The map from an encoded sequence to the references that carry exactly
//! this sequence. It is a hash map of `ahash`, used through the few
//! operations below.

use vstd::prelude::*;

verus! {

#[verifier::external_type_specification]
#[verifier::external_body]
pub struct ExRandomState(ahash::RandomState);

/// A hash map from encoded sequences to lists of reference ids.
pub type SequenceMap = ahash::HashMap<Vec<u8>, Vec<u32>>;

/// What a sequence map holds: for each encoded sequence that is a key, the
/// list of reference ids stored under it.
pub uninterp spec fn sequence_map_contents(map: ahash::HashMap<Vec<u8>, Vec<u32>>) -> Map<Seq<u8>, Seq<u32>>;

/// Whether `list` is the list of one of the keys of a map.
pub open spec fn is_list_of(map: Map<Seq<u8>, Seq<u32>>, list: Seq<u32>) -> bool {
    exists|key: Seq<u8>| #[trigger] map.contains_key(key) && map[key] == list
}

/// Whether `list` is one of the given lists.
pub open spec fn is_among(lists: Seq<Vec<u32>>, list: Seq<u32>) -> bool {
    exists|i: int| 0 <= i < lists.len() && (#[trigger] lists[i])@ == list
}

/// Makes an empty map, by `HashMapExt::new` of `ahash`: the new map holds no
/// key.
#[verifier::external_body]
pub(crate) fn sequence_map_new() -> (map: ahash::HashMap<Vec<u8>, Vec<u32>>)
    ensures
        forall|key: Seq<u8>| !sequence_map_contents(map).contains_key(key),
{
    ahash::HashMapExt::new()
}

/// Looks a sequence up, by `HashMap::get`: the list stored under the key
/// whose bytes are those of `key`, or `None` where the map has no such key.
#[verifier::external_body]
pub(crate) fn sequence_map_get<'a>(
    map: &'a ahash::HashMap<Vec<u8>, Vec<u32>>,
    key: &Vec<u8>,
) -> (found: Option<&'a Vec<u32>>)
    ensures
        found matches Some(ids) ==> sequence_map_contents(*map).contains_key(key@) && ids@
            == sequence_map_contents(*map)[key@],
        found is None ==> !sequence_map_contents(*map).contains_key(key@),
{
    map.get(key)
}

/// Takes the entry of a sequence out of the map, by `HashMap::remove`: the
/// list that was stored under the key is returned and the key is gone, all
/// other entries stay; `None` where the map had no such key.
#[verifier::external_body]
pub(crate) fn sequence_map_take(
    map: &mut ahash::HashMap<Vec<u8>, Vec<u32>>,
    key: &Vec<u8>,
) -> (taken: Option<Vec<u32>>)
    ensures
        sequence_map_contents(*final(map)) == sequence_map_contents(*old(map)).remove(key@),
        taken matches Some(ids) ==> sequence_map_contents(*old(map)).contains_key(key@) && ids@
            == sequence_map_contents(*old(map))[key@],
        taken is None ==> !sequence_map_contents(*old(map)).contains_key(key@),
{
    map.remove(key)
}

/// Stores a list under a sequence, by `HashMap::insert`: the key now maps
/// to `ids`, whatever it mapped to before, and all other entries stay.
#[verifier::external_body]
pub(crate) fn sequence_map_put(
    map: &mut ahash::HashMap<Vec<u8>, Vec<u32>>,
    key: Vec<u8>,
    ids: Vec<u32>,
)
    ensures
        sequence_map_contents(*final(map)) == sequence_map_contents(*old(map)).insert(key@, ids@),
{
    map.insert(key, ids);
}

/// Hands out the lists of a map, by `HashMap::values`, each list copied:
/// every list handed out is the list of a key, and the list of every key is
/// handed out. The order in which they come is not fixed.
#[verifier::external_body]
pub(crate) fn sequence_map_values(map: &ahash::HashMap<Vec<u8>, Vec<u32>>) -> (lists: Vec<Vec<u32>>)
    ensures
        forall|i: int|
            0 <= i < lists@.len() ==> is_list_of(sequence_map_contents(*map), (#[trigger] lists@[i])@),
        forall|key: Seq<u8>| #[trigger]
            sequence_map_contents(*map).contains_key(key) ==> is_among(
                lists@,
                sequence_map_contents(*map)[key],
            ),
{
    map.values().cloned().collect()
}

} // verus!
