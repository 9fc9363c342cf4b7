//! The steps of classifying one query: its exact matches in the database,
//! the number of 8-mers that it shares with each reference, and the lineages
//! that are reported for it.

use crate::lineage::{
    copy_of, descends, rows_descend, rows_have_ranks, rows_in_index, EvaluationResult, LineageRow,
    ResultView, RowView,
};
use crate::postings::{increasing_ids, posting_lists_of};
use crate::seqmap::{sequence_map_contents, sequence_map_get};
use crate::text::{chars_of, split_chars, split_on, views};
use crate::tree::{indexed_sequences, paths_of, Tree};
use crate::utils::{kmer_set, sequence_to_kmers, strictly_increasing};
use vstd::prelude::*;

verus! {

/// The confidence of a rank that is certain, in hundredths.
pub const CERTAIN: u64 = 100;

/// The references that carry exactly the sequence `sequence`, in ascending
/// order; none where the database does not know the sequence.
pub open spec fn exact_match_ids(tree: &Tree, sequence: Seq<u8>) -> Seq<u32> {
    if sequence_map_contents(tree.sequences).contains_key(sequence) {
        sequence_map_contents(tree.sequences)[sequence]
    } else {
        Seq::empty()
    }
}

/// The part of a text before the last occurrence of `sep`; nothing where
/// `sep` does not occur.
pub open spec fn before_last(s: Seq<char>, sep: char) -> Seq<char>
    decreases s.len(),
{
    if s.len() == 0 {
        Seq::empty()
    } else if s.last() == sep {
        s.drop_last()
    } else {
        before_last(s.drop_last(), sep)
    }
}

/// Whether the lineages of the given references are the same above their
/// last rank.
pub open spec fn same_above_leaves(lineages: Seq<Seq<char>>, ids: Seq<u32>) -> bool {
    forall|a: int, b: int|
        0 <= a < ids.len() && 0 <= b < ids.len() ==> before_last(
            lineages[(#[trigger] ids[a]) as int],
            ',',
        ) == before_last(lineages[(#[trigger] ids[b]) as int], ',')
}

/// How many of the first `upto` keys of a query have reference `r` in their
/// posting list.
pub open spec fn shared_kmers(k_mer_map: Seq<Vec<u32>>, k_mers: Seq<u16>, r: u32, upto: int) -> int
    decreases upto,
{
    if upto <= 0 {
        0
    } else {
        shared_kmers(k_mer_map, k_mers, r, upto - 1) + if k_mer_map[k_mers[upto - 1] as int]@.contains(r) {
            1int
        } else {
            0int
        }
    }
}

/// The number of shared keys is at most the number of keys looked at.
pub proof fn lemma_shared_kmers_bound(k_mer_map: Seq<Vec<u32>>, k_mers: Seq<u16>, r: u32, upto: int)
    requires
        0 <= upto,
    ensures
        0 <= shared_kmers(k_mer_map, k_mers, r, upto) <= upto,
    decreases upto,
{
    if upto > 0 {
        lemma_shared_kmers_bound(k_mer_map, k_mers, r, upto - 1);
    }
}

/// Of the first `upto` keys of a query those that are keys of a reference.
pub open spec fn shared_keys(k_mers: Seq<u16>, reference: Set<int>, upto: int) -> Set<int> {
    Set::new(
        |key: int|
            reference.contains(key) && exists|a: int| 0 <= a < upto && (#[trigger] k_mers[a]) as int == key,
    )
}

/// Counting through the posting lists counts the keys that a reference
/// shares with the query.
pub proof fn lemma_shared_kmers_counts_keys(
    k_mer_map: Seq<Vec<u32>>,
    rows: Seq<Seq<u8>>,
    k_mers: Seq<u16>,
    r: u32,
    upto: int,
)
    requires
        posting_lists_of(k_mer_map, rows),
        r < rows.len(),
        strictly_increasing(k_mers),
        0 <= upto <= k_mers.len(),
    ensures
        shared_keys(k_mers, kmer_set(rows[r as int]), upto).finite(),
        shared_kmers(k_mer_map, k_mers, r, upto) == shared_keys(
            k_mers,
            kmer_set(rows[r as int]),
            upto,
        ).len(),
    decreases upto,
{
    let reference = kmer_set(rows[r as int]);
    if upto == 0 {
        assert(shared_keys(k_mers, reference, 0) =~= Set::<int>::empty());
    } else {
        lemma_shared_kmers_counts_keys(k_mer_map, rows, k_mers, r, upto - 1);
        let fewer = shared_keys(k_mers, reference, upto - 1);
        let more = shared_keys(k_mers, reference, upto);
        let key = k_mers[upto - 1] as int;
        assert(k_mer_map[key]@.contains(r) <==> reference.contains(key));
        assert(!fewer.contains(key)) by {
            if fewer.contains(key) {
                let a = choose|a: int| 0 <= a < upto - 1 && (#[trigger] k_mers[a]) as int == key;
                assert(k_mers[a] < k_mers[upto - 1]);
            }
        }
        if reference.contains(key) {
            assert(more =~= fewer.insert(key)) by {
                assert forall|c: int| more.contains(c) <==> fewer.insert(key).contains(c) by {
                    if more.contains(c) {
                        let a = choose|a: int| 0 <= a < upto && (#[trigger] k_mers[a]) as int == c;
                        if a < upto - 1 {
                            assert(fewer.contains(c));
                        }
                    }
                    if fewer.contains(c) {
                        let a = choose|a: int| 0 <= a < upto - 1 && (#[trigger] k_mers[a]) as int == c;
                        assert(0 <= a < upto && k_mers[a] as int == c);
                    }
                    if c == key {
                        assert(0 <= upto - 1 < upto && k_mers[upto - 1] as int == c);
                    }
                }
            }
        } else {
            assert(more =~= fewer) by {
                assert forall|c: int| more.contains(c) <==> fewer.contains(c) by {
                    if more.contains(c) {
                        let a = choose|a: int| 0 <= a < upto && (#[trigger] k_mers[a]) as int == c;
                        assert(a < upto - 1);
                    }
                    if fewer.contains(c) {
                        let a = choose|a: int| 0 <= a < upto - 1 && (#[trigger] k_mers[a]) as int == c;
                        assert(0 <= a < upto && k_mers[a] as int == c);
                    }
                }
            }
        }
    }
}

/// What the posting lists count for a reference is the number of 8-mers
/// that the reference and the query have in common: the number of keys that
/// lie in the key set of the one and in the key set of the other.
pub proof fn lemma_intersection_size(
    tree: &Tree,
    lineages: Seq<Seq<char>>,
    sequences: Seq<Seq<u8>>,
    query: Seq<u8>,
    k_mers: Seq<u16>,
    r: u32,
)
    requires
        tree.is_index_of(lineages, sequences),
        r < tree.num_tips,
        strictly_increasing(k_mers),
        forall|key: u16| k_mers.contains(key) <==> kmer_set(query).contains(key as int),
    ensures
        shared_kmers(tree.k_mer_map@, k_mers, r, k_mers.len() as int) == kmer_set(query).intersect(
            kmer_set(indexed_sequences(lineages, sequences)[r as int]),
        ).len(),
{
    let rows = indexed_sequences(lineages, sequences);
    let reference = kmer_set(rows[r as int]);
    lemma_shared_kmers_counts_keys(tree.k_mer_map@, rows, k_mers, r, k_mers.len() as int);
    let shared = shared_keys(k_mers, reference, k_mers.len() as int);
    assert(shared =~= kmer_set(query).intersect(reference)) by {
        assert forall|c: int| shared.contains(c) <==> kmer_set(query).intersect(reference).contains(
            c,
        ) by {
            if shared.contains(c) {
                let a = choose|a: int| 0 <= a < k_mers.len() && (#[trigger] k_mers[a]) as int == c;
                assert(k_mers.contains(k_mers[a]));
            }
            if kmer_set(query).contains(c) && reference.contains(c) {
                let start = choose|start: int| #[trigger] crate::utils::window_key(query, start) == Some(c);
                crate::utils::lemma_window_key_bound(query, start);
                assert(k_mers.contains(c as u16));
                let a = choose|a: int| 0 <= a < k_mers.len() && k_mers[a] == c as u16;
                assert(0 <= a < k_mers.len() && k_mers[a] as int == c);
            }
        }
    }
}

/// The references that carry exactly the sequence of the query.
pub fn exact_matches(tree: &Tree, query_sequence: &Vec<u8>) -> (ids: Vec<u32>)
    ensures
        ids@ == exact_match_ids(tree, query_sequence@),
{
    match sequence_map_get(&tree.sequences, query_sequence) {
        Some(ids) => copy_of(ids),
        None => Vec::new(),
    }
}

/// The part of a text before its last `sep`.
pub fn text_before_last(text: &Vec<char>, sep: char) -> (head: Vec<char>)
    ensures
        head@ == before_last(text@, sep),
{
    let mut end: usize = text.len();
    assert(text@.take(text@.len() as int) =~= text@);
    while end > 0 && text[end - 1] != sep
        invariant
            end <= text@.len(),
            before_last(text@, sep) == before_last(text@.take(end as int), sep),
        decreases end,
    {
        proof {
            assert(text@.take(end as int).drop_last() =~= text@.take(end - 1));
        }
        end -= 1;
    }
    let mut head: Vec<char> = Vec::new();
    if end > 0 {
        let mut i: usize = 0;
        while i < end - 1
            invariant
                0 < end <= text@.len(),
                i <= end - 1,
                head@ == text@.take(i as int),
            decreases end - i,
        {
            head.push(text[i]);
            assert(text@.take(i + 1) =~= text@.take(i as int).push(text@[i as int]));
            i += 1;
        }
        proof {
            assert(text@.take(end as int).drop_last() =~= text@.take(end - 1));
        }
    } else {
        proof {
            assert(text@.take(0).len() == 0);
        }
    }
    proof {
        assert(text@.take(text@.len() as int) =~= text@);
    }
    head
}

/// Whether two lists of characters are the same.
pub fn same_chars(a: &Vec<char>, b: &Vec<char>) -> (same: bool)
    ensures
        same == (a@ == b@),
{
    if a.len() != b.len() {
        return false;
    }
    let mut i: usize = 0;
    while i < a.len()
        invariant
            i <= a@.len(),
            a@.len() == b@.len(),
            a@.take(i as int) == b@.take(i as int),
        decreases a@.len() - i,
    {
        if a[i] != b[i] {
            return false;
        }
        assert(a@.take(i + 1) =~= a@.take(i as int).push(a@[i as int]));
        assert(b@.take(i + 1) =~= b@.take(i as int).push(b@[i as int]));
        i += 1;
    }
    assert(a@.take(a@.len() as int) =~= a@);
    assert(b@.take(b@.len() as int) =~= b@);
    true
}

/// Whether the lineages of the exact matches of a query are the same above
/// their last rank. Where they are not, the query sits under taxa that
/// differ above the leaves of the trie.
pub fn exact_matches_agree(tree: &Tree, ids: &Vec<u32>) -> (agree: bool)
    requires
        forall|a: int| 0 <= a < ids@.len() ==> (#[trigger] ids@[a]) < tree.lineages@.len(),
    ensures
        agree == same_above_leaves(views(tree.lineages@), ids@),
{
    if ids.len() == 0 {
        return true;
    }
    let ghost lineages = views(tree.lineages@);
    let first = chars_of(tree.lineages[ids[0] as usize].as_str());
    let head = text_before_last(&first, ',');
    let mut a: usize = 1;
    while a < ids.len()
        invariant
            1 <= a <= ids@.len(),
            lineages == views(tree.lineages@),
            forall|k: int| 0 <= k < ids@.len() ==> (#[trigger] ids@[k]) < tree.lineages@.len(),
            head@ == before_last(lineages[ids@[0] as int], ','),
            forall|k: int|
                0 <= k < a ==> before_last(lineages[(#[trigger] ids@[k]) as int], ',') == head@,
        decreases ids@.len() - a,
    {
        let other = chars_of(tree.lineages[ids[a] as usize].as_str());
        let other_head = text_before_last(&other, ',');
        if !same_chars(&head, &other_head) {
            return false;
        }
        a += 1;
    }
    true
}

/// Counts for every reference the keys of the query that it shares:
/// `buffer[r]` becomes the number of keys in `k_mers` that have reference
/// `r` in their posting list.
pub fn intersect(tree: &Tree, k_mers: &Vec<u16>, buffer: &mut Vec<u16>)
    requires
        tree.well_formed(),
        k_mers@.len() <= u16::MAX,
        old(buffer)@.len() == tree.num_tips,
    ensures
        final(buffer)@.len() == tree.num_tips,
        forall|r: int|
            0 <= r < tree.num_tips ==> (#[trigger] final(buffer)@[r]) == shared_kmers(
                tree.k_mer_map@,
                k_mers@,
                r as u32,
                k_mers@.len() as int,
            ),
{
    let n: usize = buffer.len();
    let mut r: usize = 0;
    while r < n
        invariant
            r <= n,
            buffer@.len() == n,
            forall|k: int| 0 <= k < r ==> (#[trigger] buffer@[k]) == 0,
        decreases n - r,
    {
        buffer.set(r, 0);
        r += 1;
    }
    let ghost lists = tree.k_mer_map@;
    let mut a: usize = 0;
    while a < k_mers.len()
        invariant
            a <= k_mers@.len(),
            k_mers@.len() <= u16::MAX,
            tree.well_formed(),
            lists == tree.k_mer_map@,
            n == tree.num_tips,
            buffer@.len() == n,
            forall|r: int|
                0 <= r < n ==> (#[trigger] buffer@[r]) == shared_kmers(lists, k_mers@, r as u32, a as int),
        decreases k_mers@.len() - a,
    {
        let ids: &Vec<u32> = &tree.k_mer_map[k_mers[a] as usize];
        let ghost before = buffer@;
        let mut b: usize = 0;
        while b < ids.len()
            invariant
                b <= ids@.len(),
                a < k_mers@.len(),
                k_mers@.len() <= u16::MAX,
                tree.well_formed(),
                lists == tree.k_mer_map@,
                ids@ == lists[k_mers@[a as int] as int]@,
                n == tree.num_tips,
                buffer@.len() == n,
                forall|r: int|
                    0 <= r < n ==> (#[trigger] before[r]) == shared_kmers(
                        lists,
                        k_mers@,
                        r as u32,
                        a as int,
                    ),
                forall|r: int|
                    0 <= r < n ==> (#[trigger] buffer@[r]) == before[r] + if ids@.take(
                        b as int,
                    ).contains(r as u32) {
                        1int
                    } else {
                        0int
                    },
            decreases ids@.len() - b,
        {
            let id: usize = ids[b] as usize;
            let ghost held = buffer@;
            proof {
                let key = k_mers@[a as int] as int;
                assert(increasing_ids(lists[key]@));
                assert(lists[key]@[b as int] < tree.num_tips);
                lemma_shared_kmers_bound(lists, k_mers@, id as u32, a as int);
                let short = ids@.take(b as int);
                if short.contains(id as u32) {
                    let at = choose|at: int| 0 <= at < short.len() && short[at] == id as u32;
                    assert(ids@[at] < ids@[b as int]);
                }
            }
            buffer.set(id, buffer[id] + 1);
            proof {
                assert forall|r: int| 0 <= r < n implies (#[trigger] buffer@[r]) == before[r]
                    + if ids@.take(b + 1).contains(r as u32) {
                    1int
                } else {
                    0int
                } by {
                    let grown = ids@.take(b + 1);
                    let short = ids@.take(b as int);
                    assert(grown =~= short.push(ids@[b as int]));
                    if r == id {
                        assert(grown[b as int] == r as u32);
                    } else {
                        assert(buffer@[r] == held[r]);
                        if grown.contains(r as u32) {
                            let at = choose|at: int| 0 <= at < grown.len() && grown[at] == r as u32;
                            assert(at < b);
                            assert(short[at] == r as u32);
                        }
                        if short.contains(r as u32) {
                            let at = choose|at: int| 0 <= at < short.len() && short[at] == r as u32;
                            assert(grown[at] == r as u32);
                        }
                    }
                }
            }
            b += 1;
        }
        proof {
            assert(ids@.take(ids@.len() as int) =~= ids@);
        }
        a += 1;
    }
}

/// Sets the counts of the given references to zero; all other counts stay.
pub fn clear_counts(buffer: &mut Vec<u16>, ids: &Vec<u32>)
    requires
        old(buffer)@.len() <= u32::MAX,
        forall|a: int| 0 <= a < ids@.len() ==> (#[trigger] ids@[a]) < old(buffer)@.len(),
    ensures
        final(buffer)@.len() == old(buffer)@.len(),
        forall|r: int|
            0 <= r < old(buffer)@.len() ==> (#[trigger] final(buffer)@[r]) == if ids@.contains(r as u32) {
                0u16
            } else {
                old(buffer)@[r]
            },
{
    let mut a: usize = 0;
    while a < ids.len()
        invariant
            a <= ids@.len(),
            buffer@.len() == old(buffer)@.len(),
            buffer@.len() <= u32::MAX,
            forall|k: int| 0 <= k < ids@.len() ==> (#[trigger] ids@[k]) < buffer@.len(),
            forall|r: int|
                0 <= r < buffer@.len() ==> (#[trigger] buffer@[r]) == if ids@.take(a as int).contains(
                    r as u32,
                ) {
                    0u16
                } else {
                    old(buffer)@[r]
                },
        decreases ids@.len() - a,
    {
        let id: usize = ids[a] as usize;
        let ghost held = buffer@;
        buffer.set(id, 0);
        proof {
            let grown = ids@.take(a + 1);
            let short = ids@.take(a as int);
            assert(grown =~= short.push(ids@[a as int]));
            assert forall|r: int| 0 <= r < buffer@.len() implies (#[trigger] buffer@[r]) == if grown.contains(
                r as u32,
            ) {
                0u16
            } else {
                old(buffer)@[r]
            } by {
                if r == id {
                    assert(grown[a as int] == r as u32);
                } else {
                    assert(buffer@[r] == held[r]);
                    if grown.contains(r as u32) {
                        let at = choose|at: int| 0 <= at < grown.len() && grown[at] == r as u32;
                        assert(at < a);
                        assert(short[at] == r as u32);
                    }
                    if short.contains(r as u32) {
                        let at = choose|at: int| 0 <= at < short.len() && short[at] == r as u32;
                        assert(grown[at] == r as u32);
                    }
                }
            }
        }
        a += 1;
    }
    proof {
        assert(ids@.take(ids@.len() as int) =~= ids@);
    }
}

/// What the index knows of a query before any probability is computed.
#[derive(Debug)]
pub struct QueryProfile {
    /// The references that carry exactly the sequence of the query.
    pub exact_matches: Vec<u32>,
    /// Whether the lineages of the exact matches are the same above their
    /// last rank.
    pub exact_matches_agree: bool,
    /// The keys of the pure 8-mers of the query, each once, ascending.
    pub k_mers: Vec<u16>,
    /// The number of draws of the hit model: half the number of keys.
    pub num_trials: usize,
}

/// Profiles a query against the index: finds its exact matches and counts
/// for every reference the 8-mers that it shares with the query. Where
/// exact matches are to be skipped, their counts are set to zero. A query
/// with more keys than a count can hold has no profile.
pub fn profile_query(
    tree: &Tree,
    query_sequence: &Vec<u8>,
    skip_exact_matches: bool,
    intersect_buffer: &mut Vec<u16>,
) -> (profile: Option<QueryProfile>)
    requires
        tree.well_formed(),
        old(intersect_buffer)@.len() == tree.num_tips,
    ensures
        final(intersect_buffer)@.len() == tree.num_tips,
        profile is None <==> kmer_set(query_sequence@).len() > u16::MAX,
        kmer_set(query_sequence@).len() == 0 ==> forall|r: int|
            0 <= r < tree.num_tips ==> (#[trigger] final(intersect_buffer)@[r]) == 0,
        profile matches Some(found) ==> {
            &&& found.exact_matches@ == exact_match_ids(tree, query_sequence@)
            &&& found.exact_matches_agree == same_above_leaves(
                views(tree.lineages@),
                found.exact_matches@,
            )
            &&& strictly_increasing(found.k_mers@)
            &&& forall|key: u16|
                found.k_mers@.contains(key) <==> kmer_set(query_sequence@).contains(key as int)
            &&& found.num_trials == found.k_mers@.len() / 2
            &&& forall|r: int|
                0 <= r < tree.num_tips ==> (#[trigger] final(intersect_buffer)@[r]) == if skip_exact_matches
                    && found.exact_matches@.contains(r as u32) {
                    0int
                } else {
                    shared_kmers(tree.k_mer_map@, found.k_mers@, r as u32, found.k_mers@.len() as int)
                }
        },
{
    let k_mers = sequence_to_kmers(query_sequence.as_slice());
    if k_mers.len() > u16::MAX as usize {
        return None;
    }
    let ids = exact_matches(tree, query_sequence);
    proof {
        let map = sequence_map_contents(tree.sequences);
        assert forall|a: int| 0 <= a < ids@.len() implies (#[trigger] ids@[a]) < tree.num_tips by {
            assert(map.contains_key(query_sequence@));
            assert(map[query_sequence@][a] < tree.num_tips);
        }
    }
    let agree = exact_matches_agree(tree, &ids);
    intersect(tree, &k_mers, intersect_buffer);
    if skip_exact_matches {
        clear_counts(intersect_buffer, &ids);
    }
    let num_trials: usize = k_mers.len() / 2;
    Some(QueryProfile { exact_matches: ids, exact_matches_agree: agree, k_mers, num_trials })
}

/// Whether the report of a query is that of its one exact match.
pub open spec fn reports_exact_match(exact_matches: Seq<u32>, skip_exact_matches: bool, raw_confidence: bool) -> bool {
    !raw_confidence && !skip_exact_matches && exact_matches.len() == 1
}

/// The row of the evaluation with the given number, as it is reported: with
/// its lineage, its confidence values, its own local signal and the global
/// signal.
pub open spec fn reported_row(
    query_label: Seq<char>,
    lineages: Seq<Seq<char>>,
    rows: Seq<RowView>,
    local_signals: Seq<u64>,
    global_signal: u64,
    k: int,
) -> ResultView {
    ResultView {
        query_label,
        lineage: lineages[rows[k].lineage_index],
        confidence_values: rows[k].confidence,
        local_signal: local_signals[k],
        global_signal,
    }
}

/// The best row of a query with one exact match: the lineage of the match,
/// certain at each of its ranks, with the signals that the best row of the
/// evaluation has.
pub open spec fn certain_row(
    query_label: Seq<char>,
    lineages: Seq<Seq<char>>,
    local_signals: Seq<u64>,
    global_signal: u64,
    exact_match: int,
) -> ResultView {
    ResultView {
        query_label,
        lineage: lineages[exact_match],
        confidence_values: Seq::new(split_on(lineages[exact_match], ',').len(), |i: int| CERTAIN),
        local_signal: local_signals[0],
        global_signal,
    }
}

/// The lineages that are reported for a query.
///
/// Every row of the evaluation is reported in its rank, with its lineage,
/// its confidence values, its own local signal and the global signal. Where
/// the query has exactly one exact match, exact matches are not skipped and
/// raw confidence is not asked for, the best row is reported as the lineage
/// of this match, certain at each of its ranks; its signals stay, and so do
/// all rows behind it.
pub open spec fn reported(
    query_label: Seq<char>,
    lineages: Seq<Seq<char>>,
    rows: Seq<RowView>,
    local_signals: Seq<u64>,
    global_signal: u64,
    exact_matches: Seq<u32>,
    skip_exact_matches: bool,
    raw_confidence: bool,
) -> Seq<ResultView> {
    Seq::new(
        rows.len(),
        |k: int|
            if k == 0 && reports_exact_match(exact_matches, skip_exact_matches, raw_confidence) {
                certain_row(query_label, lineages, local_signals, global_signal, exact_matches[0] as int)
            } else {
                reported_row(query_label, lineages, rows, local_signals, global_signal, k)
            },
    )
}

/// The confidence values of a reported lineage do not grow from rank to
/// rank, where those of the rows of the evaluation do not.
pub proof fn lemma_reported_rows_descend(
    query_label: Seq<char>,
    lineages: Seq<Seq<char>>,
    rows: Seq<RowView>,
    local_signals: Seq<u64>,
    global_signal: u64,
    exact_matches: Seq<u32>,
    skip_exact_matches: bool,
    raw_confidence: bool,
    k: int,
)
    requires
        rows_descend(rows),
        0 <= k < rows.len(),
    ensures
        descends(
            reported(
                query_label,
                lineages,
                rows,
                local_signals,
                global_signal,
                exact_matches,
                skip_exact_matches,
                raw_confidence,
            )[k].confidence_values,
        ),
{
}

/// A reported lineage has a confidence value for each of its ranks, where
/// the rows of the evaluation have one for each rank of theirs.
pub proof fn lemma_reported_rows_have_ranks(
    query_label: Seq<char>,
    lineages: Seq<Seq<char>>,
    rows: Seq<RowView>,
    local_signals: Seq<u64>,
    global_signal: u64,
    exact_matches: Seq<u32>,
    skip_exact_matches: bool,
    raw_confidence: bool,
    k: int,
)
    requires
        rows_have_ranks(rows, paths_of(lineages)),
        0 <= k < rows.len(),
    ensures
        reported(
            query_label,
            lineages,
            rows,
            local_signals,
            global_signal,
            exact_matches,
            skip_exact_matches,
            raw_confidence,
        )[k].confidence_values.len() == split_on(
            reported(
                query_label,
                lineages,
                rows,
                local_signals,
                global_signal,
                exact_matches,
                skip_exact_matches,
                raw_confidence,
            )[k].lineage,
            ',',
        ).len(),
{
}

/// The lineages that are reported for a query, from the ranked rows of its
/// evaluation, the local signal of each row and the global signal.
pub fn report_lineages<'a, 'b>(
    query_label: &'b String,
    tree: &'a Tree,
    rows: Vec<LineageRow>,
    local_signals: &Vec<u64>,
    global_signal: u64,
    exact_matches: &Vec<u32>,
    skip_exact_matches: bool,
    raw_confidence: bool,
) -> (results: Vec<EvaluationResult<'a, 'b>>)
    requires
        rows@.len() > 0,
        local_signals@.len() == rows@.len(),
        rows_in_index(views(rows@), tree.lineages@.len() as int),
        forall|a: int| 0 <= a < exact_matches@.len() ==> (#[trigger] exact_matches@[a]) < tree.lineages@.len(),
    ensures
        views(results@) == reported(
            query_label@,
            views(tree.lineages@),
            views(rows@),
            local_signals@,
            global_signal,
            exact_matches@,
            skip_exact_matches,
            raw_confidence,
        ),
        results@.len() == rows@.len(),
{
    let certain: bool = !raw_confidence && !skip_exact_matches && exact_matches.len() == 1;
    let ghost wanted = reported(
        query_label@,
        views(tree.lineages@),
        views(rows@),
        local_signals@,
        global_signal,
        exact_matches@,
        skip_exact_matches,
        raw_confidence,
    );
    let mut results: Vec<EvaluationResult<'a, 'b>> = Vec::new();
    let mut k: usize = 0;
    while k < rows.len()
        invariant
            k <= rows@.len(),
            local_signals@.len() == rows@.len(),
            rows_in_index(views(rows@), tree.lineages@.len() as int),
            forall|a: int|
                0 <= a < exact_matches@.len() ==> (#[trigger] exact_matches@[a]) < tree.lineages@.len(),
            wanted == reported(
                query_label@,
                views(tree.lineages@),
                views(rows@),
                local_signals@,
                global_signal,
                exact_matches@,
                skip_exact_matches,
                raw_confidence,
            ),
            certain == reports_exact_match(exact_matches@, skip_exact_matches, raw_confidence),
            views(results@) == wanted.take(k as int),
        decreases rows@.len() - k,
    {
        let row = &rows[k];
        assert(views(rows@)[k as int] == row@);
        let result = if k == 0 && certain {
            let lineage: &'a String = &tree.lineages[exact_matches[0] as usize];
            let chars = chars_of(lineage.as_str());
            let ranks = split_chars(&chars, ',');
            let mut confidence_values: Vec<u64> = Vec::new();
            let mut i: usize = 0;
            while i < ranks.len()
                invariant
                    i <= ranks@.len(),
                    confidence_values@.len() == i,
                    forall|c: int| 0 <= c < i ==> (#[trigger] confidence_values@[c]) == CERTAIN,
                decreases ranks@.len() - i,
            {
                confidence_values.push(CERTAIN);
                i += 1;
            }
            proof {
                assert(views(ranks@).len() == ranks@.len());
                assert(confidence_values@ =~= Seq::new(
                    split_on(lineage@, ',').len(),
                    |i: int| CERTAIN,
                ));
            }
            EvaluationResult {
                query_label,
                lineage,
                confidence_values,
                local_signal: local_signals[0],
                global_signal,
            }
        } else {
            EvaluationResult {
                query_label,
                lineage: &tree.lineages[row.lineage_index],
                confidence_values: copy_of(&row.confidence),
                local_signal: local_signals[k],
                global_signal,
            }
        };
        let ghost held = results@;
        results.push(result);
        proof {
            crate::text::lemma_views_push(held, result);
            assert(result@ == wanted[k as int]);
            assert(wanted.take(k + 1) =~= wanted.take(k as int).push(wanted[k as int]));
        }
        k += 1;
    }
    assert(wanted.take(rows@.len() as int) =~= wanted);
    assert(views(results@).len() == results@.len());
    results
}

/// The smallest number of chunks of `size` that hold `count` items, for a
/// positive `size`.
pub open spec fn chunks_needed(count: int, size: int) -> int {
    (count + size - 1) / size
}

/// The number of queries that a worker takes at a time: all queries where
/// there is one worker, and otherwise a tenth of the share of a worker,
/// rounded up, but at least one hundred.
pub open spec fn chunk_size_of(num_queries: int, workers: int) -> int {
    if workers == 1 {
        num_queries
    } else if chunks_needed(num_queries, 10 * workers) > 100 {
        chunks_needed(num_queries, 10 * workers)
    } else {
        100
    }
}

/// The number of queries that a worker takes at a time.
pub fn chunk_size(num_queries: usize, workers: usize) -> (size: usize)
    requires
        workers > 0,
    ensures
        size == chunk_size_of(num_queries as int, workers as int),
{
    if workers == 1 {
        return num_queries;
    }
    let share: usize = match workers.checked_mul(10) {
        Some(parts) => {
            let whole: usize = num_queries / parts;
            assert(whole < usize::MAX) by (nonlinear_arith)
                requires
                    parts >= 2,
                    whole == num_queries as int / parts as int,
                    0 <= num_queries <= usize::MAX,
            ;
            let share: usize = if num_queries % parts == 0 {
                whole
            } else {
                whole + 1
            };
            assert(share == chunks_needed(num_queries as int, parts as int)) by (nonlinear_arith)
                requires
                    parts > 0,
                    whole == num_queries as int / parts as int,
                    share == if (num_queries as int) % (parts as int) == 0 {
                        whole as int
                    } else {
                        whole + 1
                    },
            ;
            share
        },
        None => {
            assert(chunks_needed(num_queries as int, 10 * workers) <= 1) by (nonlinear_arith)
                requires
                    10 * workers > usize::MAX,
                    0 <= num_queries <= usize::MAX,
            ;
            0
        },
    };
    if share > 100 {
        share
    } else {
        100
    }
}

} // verus!
