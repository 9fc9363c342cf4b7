//! The posting lists of the 8-mers and the lists of the references that
//! carry the same sequence: what they hold, how a row is entered into them
//! and how they are checked.

use crate::seqmap::{sequence_map_contents, sequence_map_put, sequence_map_take, SequenceMap};
use crate::utils::{kmer_at, kmer_set, window_key};
use vstd::prelude::*;

verus! {

/// Whether a list of reference ids grows strictly from each id to the next.
pub open spec fn increasing_ids(ids: Seq<u32>) -> bool {
    forall|a: int, b: int| 0 <= a < b < ids.len() ==> ids[a] < ids[b]
}

/// The posting lists are those of the rows `rows`: the list of a key holds,
/// in ascending order and each once, the rows whose sequence has a pure
/// 8-mer with this key.
pub open spec fn posting_lists_of(k_mer_map: Seq<Vec<u32>>, rows: Seq<Seq<u8>>) -> bool {
    &&& k_mer_map.len() == 65536
    &&& forall|key: int| 0 <= key < 65536 ==> increasing_ids(#[trigger] k_mer_map[key]@)
    &&& forall|key: int, r: u32|
        0 <= key < 65536 ==> (#[trigger] k_mer_map[key]@.contains(r) <==> r < rows.len() && kmer_set(
            rows[r as int],
        ).contains(key))
}

/// The map of exact sequences is that of the rows `rows`: its keys are the
/// sequences of the rows, and under a sequence stand, in ascending order and
/// each once, the rows that carry it.
pub open spec fn buckets_of(map: Map<Seq<u8>, Seq<u32>>, rows: Seq<Seq<u8>>) -> bool {
    &&& forall|s: Seq<u8>| #[trigger] map.contains_key(s) <==> rows.contains(s)
    &&& forall|s: Seq<u8>| #[trigger] map.contains_key(s) ==> increasing_ids(map[s])
    &&& forall|s: Seq<u8>, r: u32|
        map.contains_key(s) ==> (#[trigger] map[s].contains(r) <==> r < rows.len() && rows[r as int]
            == s)
}

/// The posting lists while the windows before `start` of row `id` have been
/// entered.
spec fn postings_upto(
    k_mer_map: Seq<Vec<u32>>,
    rows: Seq<Seq<u8>>,
    sequence: Seq<u8>,
    id: u32,
    start: int,
) -> bool {
    &&& k_mer_map.len() == 65536
    &&& forall|key: int| 0 <= key < 65536 ==> increasing_ids(#[trigger] k_mer_map[key]@)
    &&& forall|key: int, r: u32|
        0 <= key < 65536 ==> (#[trigger] k_mer_map[key]@.contains(r) <==> (r < id && kmer_set(
            rows[r as int],
        ).contains(key)) || (r == id && seen_before(sequence, start, key)))
}

/// Whether a window before `start` has the key `key`.
spec fn seen_before(sequence: Seq<u8>, start: int, key: int) -> bool {
    exists|i: int| 0 <= i < start && #[trigger] window_key(sequence, i) == Some(key)
}

/// Enters one window of row `id` into the posting lists.
fn add_kmer(
    k_mer_map: &mut Vec<Vec<u32>>,
    sequence: &Vec<u8>,
    id: u32,
    start: usize,
    Ghost(rows): Ghost<Seq<Seq<u8>>>,
)
    requires
        rows.len() == id,
        start + 8 <= sequence@.len(),
        postings_upto(old(k_mer_map)@, rows, sequence@, id, start as int),
    ensures
        postings_upto(final(k_mer_map)@, rows, sequence@, id, start + 1),
{
    let ghost before = k_mer_map@;
    let ghost s = sequence@;
    match kmer_at(sequence.as_slice(), start) {
        Some(key) => {
            let k: usize = key as usize;
            let len: usize = k_mer_map[k].len();
            let ghost list = before[k as int]@;
            proof {
                assert forall|a: int| 0 <= a < list.len() implies list[a] <= id by {
                    assert(list.contains(list[a]));
                }
            }
            if len == 0 || k_mer_map[k][len - 1] != id {
                k_mer_map[k].push(id);
                proof {
                    assert forall|a: int| 0 <= a < list.len() implies list[a] < id by {
                        if list[a] == id {
                            assert(list[a] < list[len - 1]);
                        }
                    }
                    let after = k_mer_map@;
                    assert(after[k as int]@ == list.push(id));
                    assert forall|c: int, r: u32| 0 <= c < 65536 implies (
                    #[trigger] after[c]@.contains(r) <==> (r < id && kmer_set(rows[r as int]).contains(
                        c,
                    )) || (r == id && seen_before(s, start + 1, c))) by {
                        if c == k {
                            if after[c]@.contains(r) {
                                let a = choose|a: int| 0 <= a < after[c]@.len() && after[c]@[a] == r;
                                if a < list.len() {
                                    assert(list.contains(r));
                                    assert(r != id);
                                } else {
                                    assert(window_key(s, start as int) == Some(c));
                                }
                            }
                            if r < id && kmer_set(rows[r as int]).contains(c) {
                                assert(list.contains(r));
                                let a = choose|a: int| 0 <= a < list.len() && list[a] == r;
                                assert(after[c]@[a] == r);
                            }
                            if r == id && seen_before(s, start + 1, c) {
                                assert(after[c]@[list.len() as int] == r);
                            }
                        } else {
                            assert(after[c] == before[c]);
                            if seen_before(s, start + 1, c) {
                                let i = choose|i: int|
                                    0 <= i < start + 1 && #[trigger] window_key(s, i) == Some(c);
                                assert(i < start);
                                assert(seen_before(s, start as int, c));
                            }
                            if seen_before(s, start as int, c) {
                                let i = choose|i: int|
                                    0 <= i < start && #[trigger] window_key(s, i) == Some(c);
                                assert(0 <= i < start + 1 && window_key(s, i) == Some(c));
                            }
                        }
                    }
                    assert forall|c: int| 0 <= c < 65536 implies increasing_ids(
                        #[trigger] after[c]@,
                    ) by {
                        if c != k {
                            assert(after[c] == before[c]);
                        }
                    }
                }
            } else {
                proof {
                    assert(list[len - 1] == id);
                    assert(list.contains(id));
                    assert forall|c: int, r: u32| 0 <= c < 65536 implies (
                    #[trigger] before[c]@.contains(r) <==> (r < id && kmer_set(
                        rows[r as int],
                    ).contains(c)) || (r == id && seen_before(s, start + 1, c))) by {
                        if seen_before(s, start + 1, c) {
                            let i = choose|i: int|
                                0 <= i < start + 1 && #[trigger] window_key(s, i) == Some(c);
                            if i < start {
                                assert(seen_before(s, start as int, c));
                            }
                        }
                        if seen_before(s, start as int, c) {
                            let i = choose|i: int|
                                0 <= i < start && #[trigger] window_key(s, i) == Some(c);
                            assert(0 <= i < start + 1 && window_key(s, i) == Some(c));
                        }
                        if c == k {
                            assert(window_key(s, start as int) == Some(c));
                            assert(seen_before(s, start + 1, c));
                        }
                    }
                }
            }
        },
        None => {
            proof {
                assert forall|c: int, r: u32| 0 <= c < 65536 implies (
                #[trigger] before[c]@.contains(r) <==> (r < id && kmer_set(rows[r as int]).contains(
                    c,
                )) || (r == id && seen_before(s, start + 1, c))) by {
                    if seen_before(s, start + 1, c) {
                        let i = choose|i: int|
                            0 <= i < start + 1 && #[trigger] window_key(s, i) == Some(c);
                        assert(i < start);
                        assert(seen_before(s, start as int, c));
                    }
                    if seen_before(s, start as int, c) {
                        let i = choose|i: int|
                            0 <= i < start && #[trigger] window_key(s, i) == Some(c);
                        assert(0 <= i < start + 1 && window_key(s, i) == Some(c));
                    }
                }
            }
        },
    }
}

/// Enters the pure 8-mers of row `id` into the posting lists.
pub(crate) fn add_kmers(k_mer_map: &mut Vec<Vec<u32>>, sequence: &Vec<u8>, id: u32, Ghost(rows): Ghost<Seq<Seq<u8>>>)
    requires
        rows.len() == id,
        posting_lists_of(old(k_mer_map)@, rows),
    ensures
        posting_lists_of(final(k_mer_map)@, rows.push(sequence@)),
{
    let n: usize = sequence.len();
    let ghost s = sequence@;
    let mut start: usize = 0;
    proof {
        assert(postings_upto(k_mer_map@, rows, s, id, 0));
    }
    if n >= 8 {
        while start <= n - 8
            invariant
                n >= 8,
                n == s.len(),
                s == sequence@,
                rows.len() == id,
                start <= n - 7,
                postings_upto(k_mer_map@, rows, s, id, start as int),
            decreases n - start,
        {
            add_kmer(k_mer_map, sequence, id, start, Ghost(rows));
            start += 1;
        }
    }
    proof {
        let after = k_mer_map@;
        let grown = rows.push(s);
        assert forall|key: int, r: u32| 0 <= key < 65536 implies (
        #[trigger] after[key]@.contains(r) <==> r < grown.len() && kmer_set(grown[r as int]).contains(
            key,
        )) by {
            if r < id {
                assert(grown[r as int] == rows[r as int]);
            }
            if r == id {
                assert(grown[r as int] == s);
                if seen_before(s, start as int, key) {
                    let i = choose|i: int| 0 <= i < start && #[trigger] window_key(s, i) == Some(key);
                    assert(kmer_set(s).contains(key));
                }
                if kmer_set(s).contains(key) {
                    let i = choose|i: int| #[trigger] window_key(s, i) == Some(key);
                    assert(0 <= i < start);
                    assert(seen_before(s, start as int, key));
                }
            }
        }
    }
}

/// Enters row `id` into the map of exact sequences.
pub(crate) fn record_sequence(map: &mut SequenceMap, sequence: &Vec<u8>, id: u32, Ghost(rows): Ghost<Seq<Seq<u8>>>)
    requires
        rows.len() == id,
        buckets_of(sequence_map_contents(*old(map)), rows),
    ensures
        buckets_of(sequence_map_contents(*final(map)), rows.push(sequence@)),
{
    let ghost before = sequence_map_contents(*map);
    let taken = sequence_map_take(map, sequence);
    let mut ids: Vec<u32> = match taken {
        Some(ids) => ids,
        None => Vec::new(),
    };
    let ghost old_ids = ids@;
    ids.push(id);
    let ghost new_ids = ids@;
    let key = sequence.clone();
    assert(key@ == sequence@);
    sequence_map_put(map, key, ids);
    proof {
        let after = sequence_map_contents(*map);
        let k = sequence@;
        let grown = rows.push(k);
        assert(after =~= before.insert(k, new_ids));
        assert forall|a: int| 0 <= a < old_ids.len() implies old_ids[a] < id by {
            if before.contains_key(k) {
                assert(before[k].contains(old_ids[a]));
            }
        }
        assert(grown[id as int] == k);
        assert forall|s: Seq<u8>| #[trigger] after.contains_key(s) <==> grown.contains(s) by {
            if s != k {
                if rows.contains(s) {
                    let i = choose|i: int| 0 <= i < rows.len() && rows[i] == s;
                    assert(grown[i] == s);
                }
                if grown.contains(s) {
                    let i = choose|i: int| 0 <= i < grown.len() && grown[i] == s;
                    assert(rows[i] == s);
                }
            }
        }
        assert forall|s: Seq<u8>, r: u32| after.contains_key(s) implies (
        #[trigger] after[s].contains(r) <==> r < grown.len() && grown[r as int] == s) by {
            if s == k {
                if new_ids.contains(r) {
                    let a = choose|a: int| 0 <= a < new_ids.len() && new_ids[a] == r;
                    if a < old_ids.len() {
                        assert(old_ids.contains(r));
                        assert(before[k].contains(r));
                        assert(grown[r as int] == rows[r as int]);
                    }
                }
                if r < grown.len() && grown[r as int] == s {
                    if r < id {
                        assert(rows[r as int] == s);
                        assert(rows.contains(s));
                        assert(before[k].contains(r));
                        let a = choose|a: int| 0 <= a < old_ids.len() && old_ids[a] == r;
                        assert(new_ids[a] == r);
                    } else {
                        assert(new_ids[old_ids.len() as int] == r);
                    }
                }
            } else {
                assert(after[s] == before[s]);
                if r < id {
                    assert(grown[r as int] == rows[r as int]);
                }
            }
        }
        assert forall|s: Seq<u8>| #[trigger] after.contains_key(s) implies increasing_ids(
            after[s],
        ) by {
            if s != k {
                assert(after[s] == before[s]);
            }
        }
    }
}

/// Whether a list of reference ids ascends strictly and stays below
/// `limit`.
pub open spec fn ids_below(ids: Seq<u32>, limit: int) -> bool {
    increasing_ids(ids) && forall|a: int| 0 <= a < ids.len() ==> (#[trigger] ids[a]) < limit
}

/// Whether a list of reference ids ascends strictly and stays below
/// `limit`.
pub fn ids_in_order(ids: &Vec<u32>, limit: usize) -> (ok: bool)
    ensures
        ok == ids_below(ids@, limit as int),
{
    let mut a: usize = 0;
    while a < ids.len()
        invariant
            a <= ids@.len(),
            increasing_ids(ids@.take(a as int)),
            forall|k: int| 0 <= k < a ==> (#[trigger] ids@[k]) < limit,
        decreases ids@.len() - a,
    {
        if ids[a] as usize >= limit {
            return false;
        }
        if a > 0 && ids[a - 1] >= ids[a] {
            return false;
        }
        proof {
            let grown = ids@.take(a + 1);
            let short = ids@.take(a as int);
            assert forall|x: int, y: int| 0 <= x < y < grown.len() implies grown[x] < grown[y] by {
                if y == a {
                    if x < a - 1 {
                        assert(short[x] < short[a - 1]);
                    }
                } else {
                    assert(short[x] < short[y]);
                }
            }
        }
        a += 1;
    }
    assert(ids@.take(ids@.len() as int) =~= ids@);
    true
}

} // verus!
