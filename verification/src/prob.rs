//! The classes of the hit model. References with the same number of shared
//! 8-mers have the same hit probability, so the model is evaluated once for
//! each such number and the result is handed to every reference of the
//! class. The references of each class are counted in a hash map of `ahash`.

use crate::order::{lemma_sorted_order, sort_indices, Keys};
use vstd::prelude::*;
use vstd::relations::total_ordering;

verus! {

/// How many references share exactly `size` 8-mers with the query.
pub open spec fn count_of(sizes: Seq<u16>, size: u16) -> nat {
    sizes.to_multiset().count(size)
}

/// The classes of a query: every number of shared 8-mers that occurs, in
/// ascending order, each with the number of references that have it.
pub open spec fn are_classes_of(classes: Seq<(u16, usize)>, sizes: Seq<u16>) -> bool {
    &&& forall|a: int, b: int| 0 <= a < b < classes.len() ==> classes[a].0 < classes[b].0
    &&& forall|a: int|
        0 <= a < classes.len() ==> (#[trigger] classes[a]).1 > 0 && classes[a].1 == count_of(
            sizes,
            classes[a].0,
        )
    &&& forall|r: int| 0 <= r < sizes.len() ==> has_class(classes, #[trigger] sizes[r])
}

/// Whether there is a class for the given number of shared 8-mers.
pub open spec fn has_class(classes: Seq<(u16, usize)>, size: u16) -> bool {
    exists|a: int| 0 <= a < classes.len() && (#[trigger] classes[a]).0 == size
}

/// A value occurs in a list at most as often as the list is long, and at
/// least once where the list holds it.
pub proof fn lemma_count_of(sizes: Seq<u16>, size: u16)
    ensures
        count_of(sizes, size) <= sizes.len(),
        sizes.contains(size) <==> count_of(sizes, size) > 0,
{
    sizes.to_multiset_ensures();
    vstd::multiset::axiom_count_le_len(sizes.to_multiset(), size);
}

/// A hash map from a number of shared 8-mers to the number of references
/// that have it.
pub type CountMap = ahash::HashMap<u16, usize>;

/// What a count map holds: for each number that is a key, the count stored
/// under it.
pub uninterp spec fn count_map_contents(map: ahash::HashMap<u16, usize>) -> Map<u16, usize>;

/// Makes an empty count map, by `HashMapExt::new` of `ahash`: the new map
/// holds no key.
#[verifier::external_body]
fn count_map_new() -> (map: ahash::HashMap<u16, usize>)
    ensures
        forall|key: u16| !count_map_contents(map).contains_key(key),
{
    ahash::HashMapExt::new()
}

/// Looks a number up, by `HashMap::get`: the count stored under the key, or
/// `None` where the map has no such key.
#[verifier::external_body]
fn count_map_get(map: &ahash::HashMap<u16, usize>, key: u16) -> (found: Option<usize>)
    ensures
        found matches Some(count) ==> count_map_contents(*map).contains_key(key) && count
            == count_map_contents(*map)[key],
        found is None ==> !count_map_contents(*map).contains_key(key),
{
    map.get(&key).copied()
}

/// Stores a count under a number, by `HashMap::insert`: the key now maps to
/// `count`, whatever it mapped to before, and all other entries stay.
#[verifier::external_body]
fn count_map_put(map: &mut ahash::HashMap<u16, usize>, key: u16, count: usize)
    ensures
        count_map_contents(*final(map)) == count_map_contents(*old(map)).insert(key, count),
{
    map.insert(key, count);
}

/// Whether an entry is one of the given entries.
pub open spec fn has_entry(entries: Seq<(u16, usize)>, key: u16) -> bool {
    exists|i: int| 0 <= i < entries.len() && (#[trigger] entries[i]).0 == key
}

/// Hands out the entries of a count map, by `HashMap::iter`: every entry
/// handed out is an entry of the map, every key of the map is handed out,
/// and no key comes twice. The order in which they come is not fixed.
#[verifier::external_body]
fn count_map_entries(map: &ahash::HashMap<u16, usize>) -> (entries: Vec<(u16, usize)>)
    ensures
        forall|i: int|
            0 <= i < entries@.len() ==> count_map_contents(*map).contains_key((#[trigger] entries@[i]).0)
                && count_map_contents(*map)[entries@[i].0] == entries@[i].1,
        forall|key: u16| #[trigger] count_map_contents(*map).contains_key(key) ==> has_entry(entries@, key),
        forall|i: int, j: int|
            0 <= i < j < entries@.len() ==> (#[trigger] entries@[i]).0 != (#[trigger] entries@[j]).0,
{
    map.iter().map(|(key, count)| (*key, *count)).collect()
}

/// Row `i` stands at or before row `j`: its number is the smaller one, or
/// the numbers are the same and `i` is not the later row.
pub open spec fn entry_leq(entries: Seq<(u16, usize)>) -> spec_fn(usize, usize) -> bool {
    |i: usize, j: usize|
        entries[i as int].0 < entries[j as int].0 || (entries[i as int].0 == entries[j as int].0 && i
            <= j)
}

/// `entry_leq` is a total order of the rows.
pub proof fn lemma_entry_leq_total(entries: Seq<(u16, usize)>)
    ensures
        total_ordering(entry_leq(entries)),
{
    let leq = entry_leq(entries);
    assert forall|x: usize, y: usize| #[trigger] leq(x, y) && #[trigger] leq(y, x) implies x == y by {}
    assert forall|x: usize, y: usize, z: usize| #[trigger] leq(x, y) && #[trigger] leq(y, z) implies leq(
        x,
        z,
    ) by {}
    assert forall|x: usize, y: usize| #[trigger] leq(x, y) || #[trigger] leq(y, x) by {}
}

/// The entries of a count map as a table of rows to sort.
pub struct EntryKeys<'e> {
    pub entries: &'e Vec<(u16, usize)>,
}

impl<'e> Keys for EntryKeys<'e> {
    open spec fn rows(&self) -> nat {
        self.entries@.len()
    }

    open spec fn leq(&self) -> spec_fn(usize, usize) -> bool {
        entry_leq(self.entries@)
    }

    proof fn lemma_total(&self) {
        lemma_entry_leq_total(self.entries@);
    }

    fn count(&self) -> (n: usize) {
        self.entries.len()
    }

    fn at_or_before(&self, i: usize, j: usize) -> (r: bool) {
        let a: u16 = self.entries[i].0;
        let b: u16 = self.entries[j].0;
        a < b || (a == b && i <= j)
    }
}

/// The classes of a query, from the number of 8-mers that each reference
/// shares with it. The references are counted in a hash map and the
/// entries of the map are put in ascending order.
pub fn intersection_size_counts(intersection_sizes: &[u16]) -> (classes: Vec<(u16, usize)>)
    ensures
        are_classes_of(classes@, intersection_sizes@),
{
    let ghost sizes = intersection_sizes@;
    let mut counts = count_map_new();
    let mut r: usize = 0;
    proof {
        assert forall|size: u16| !count_map_contents(counts).contains_key(size) && count_of(
            sizes.take(0),
            size,
        ) == 0 by {
            lemma_count_of(sizes.take(0), size);
        }
    }
    while r < intersection_sizes.len()
        invariant
            r <= sizes.len(),
            sizes == intersection_sizes@,
            forall|size: u16|
                #![trigger count_map_contents(counts).contains_key(size)]
                (count_map_contents(counts).contains_key(size) <==> count_of(sizes.take(r as int), size)
                    > 0) && (count_map_contents(counts).contains_key(size) ==> count_map_contents(
                    counts,
                )[size] == count_of(sizes.take(r as int), size)),
        decreases sizes.len() - r,
    {
        let size: u16 = intersection_sizes[r];
        let ghost before = count_map_contents(counts);
        let so_far: usize = match count_map_get(&counts, size) {
            Some(count) => count,
            None => 0,
        };
        proof {
            lemma_count_of(sizes.take(r as int), size);
            assert(before.contains_key(size) <==> count_of(sizes.take(r as int), size) > 0);
            assert(so_far == count_of(sizes.take(r as int), size));
            assert(sizes.take(r + 1) =~= sizes.take(r as int).push(size));
            vstd::seq_lib::to_multiset_build(sizes.take(r as int), size);
        }
        count_map_put(&mut counts, size, so_far + 1);
        proof {
            let after = count_map_contents(counts);
            assert forall|other: u16|
                #![trigger after.contains_key(other)]
                (after.contains_key(other) <==> count_of(sizes.take(r + 1), other) > 0) && (
                after.contains_key(other) ==> after[other] == count_of(sizes.take(r + 1), other)) by {
                assert(before.contains_key(other) <==> count_of(sizes.take(r as int), other) > 0);
                if other != size {
                    assert(after.contains_key(other) == before.contains_key(other));
                }
            }
        }
        r += 1;
    }
    proof {
        assert(sizes.take(sizes.len() as int) =~= sizes);
    }
    let entries = count_map_entries(&counts);
    let ghost map = count_map_contents(counts);
    let keys = EntryKeys { entries: &entries };
    let order = sort_indices(&keys);
    proof {
        lemma_entry_leq_total(entries@);
        lemma_sorted_order(entries@.len(), entry_leq(entries@));
    }
    let mut classes: Vec<(u16, usize)> = Vec::new();
    let mut k: usize = 0;
    while k < order.len()
        invariant
            k <= order@.len(),
            order@.len() == entries@.len(),
            forall|a: int| 0 <= a < order@.len() ==> (#[trigger] order@[a]) < entries@.len(),
            classes@.len() == k,
            forall|a: int| 0 <= a < k ==> (#[trigger] classes@[a]) == entries@[order@[a] as int],
        decreases order@.len() - k,
    {
        classes.push(entries[order[k]]);
        k += 1;
    }
    proof {
        assert forall|a: int, b: int| 0 <= a < b < classes@.len() implies classes@[a].0
            < classes@[b].0 by {
            assert(entry_leq(entries@)(order@[a], order@[b]));
            assert(order@[a] != order@[b]);
            if order@[a] < order@[b] {
                assert(entries@[order@[a] as int].0 != entries@[order@[b] as int].0);
            } else {
                assert(entries@[order@[b] as int].0 != entries@[order@[a] as int].0);
            }
        }
        assert forall|a: int| 0 <= a < classes@.len() implies (#[trigger] classes@[a]).1 > 0
            && classes@[a].1 == count_of(sizes, classes@[a].0) by {
            let entry = entries@[order@[a] as int];
            assert(map.contains_key(entry.0));
        }
        assert forall|r: int| 0 <= r < sizes.len() implies has_class(classes@, #[trigger] sizes[r]) by {
            lemma_count_of(sizes, sizes[r]);
            assert(sizes.contains(sizes[r]));
            assert(map.contains_key(sizes[r]));
            assert(has_entry(entries@, sizes[r]));
            let i = choose|i: int| 0 <= i < entries@.len() && (#[trigger] entries@[i]).0 == sizes[r];
            assert(order@.contains(i as usize));
            let a = choose|a: int| 0 <= a < order@.len() && order@[a] == i as usize;
            assert(classes@[a].0 == sizes[r]);
        }
    }
    classes
}

/// The place of the class of the given number of shared 8-mers, if there is
/// such a class.
pub fn class_index(classes: &Vec<(u16, usize)>, size: u16) -> (found: Option<usize>)
    ensures
        found matches Some(a) ==> a < classes@.len() && classes@[a as int].0 == size,
        found is None ==> forall|a: int| 0 <= a < classes@.len() ==> (#[trigger] classes@[a]).0 != size,
{
    let mut a: usize = 0;
    while a < classes.len()
        invariant
            a <= classes@.len(),
            forall|k: int| 0 <= k < a ==> (#[trigger] classes@[k]).0 != size,
        decreases classes@.len() - a,
    {
        if classes[a].0 == size {
            return Some(a);
        }
        a += 1;
    }
    None
}

/// For every reference the place of its class.
pub fn class_of_each(intersection_sizes: &[u16], classes: &Vec<(u16, usize)>) -> (places: Vec<usize>)
    requires
        are_classes_of(classes@, intersection_sizes@),
    ensures
        places@.len() == intersection_sizes@.len(),
        forall|r: int|
            0 <= r < places@.len() ==> (#[trigger] places@[r]) < classes@.len() && classes@[places@[r] as int].0
                == intersection_sizes@[r],
{
    let mut places: Vec<usize> = Vec::new();
    let mut r: usize = 0;
    while r < intersection_sizes.len()
        invariant
            r <= intersection_sizes@.len(),
            are_classes_of(classes@, intersection_sizes@),
            places@.len() == r,
            forall|k: int|
                0 <= k < r ==> (#[trigger] places@[k]) < classes@.len() && classes@[places@[k] as int].0
                    == intersection_sizes@[k],
        decreases intersection_sizes@.len() - r,
    {
        match class_index(classes, intersection_sizes[r]) {
            Some(a) => {
                places.push(a);
            },
            None => {
                proof {
                    assert(has_class(classes@, intersection_sizes@[r as int]));
                    assert(false);
                }
                places.push(0);
            },
        }
        r += 1;
    }
    places
}

/// Whether a reference shares all `total_num_k_mers` keys of the query. The
/// hit probabilities then take the short form in which only references
/// that share all keys carry mass.
pub fn has_full_intersection(classes: &Vec<(u16, usize)>, total_num_k_mers: u16) -> (full: bool)
    ensures
        full == has_class(classes@, total_num_k_mers),
{
    match class_index(classes, total_num_k_mers) {
        Some(a) => true,
        None => false,
    }
}

} // verus!
