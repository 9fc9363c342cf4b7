//! The sequence codec: 4-bit base codes, their letters, and the 16-bit keys
//! of the pure 8-mers of a sequence. Also the texts of the outputs.

use crate::lineage::EvaluationResult;
use crate::text::{join, join_chars, lemma_views_push, string_of, views};
use vstd::prelude::*;

verus! {

/// The 2-bit code of a pure base (A, C, G, T in this order), `None` for an
/// ambiguity code or anything else.
pub open spec fn two_bit_code(c: u8) -> Option<u16> {
    if c == 1 {
        Some(0u16)
    } else if c == 2 {
        Some(1u16)
    } else if c == 4 {
        Some(2u16)
    } else if c == 8 {
        Some(3u16)
    } else {
        None
    }
}

/// The key of the first `n` bases of the window that starts at `start`: each
/// further base shifts the key by two bits and adds its 2-bit code. `None`
/// as soon as one of these bases is not pure.
pub open spec fn key_prefix(s: Seq<u8>, start: int, n: nat) -> Option<int>
    decreases n,
{
    if n == 0 {
        Some(0int)
    } else {
        match (key_prefix(s, start, (n - 1) as nat), two_bit_code(s[start + n - 1])) {
            (Some(acc), Some(code)) => Some(4 * acc + code),
            _ => None,
        }
    }
}

/// The 16-bit key of the 8-mer that starts at `start`, where all of its eight
/// bases are pure: the base at offset `j` holds bits `14 - 2j` and `15 - 2j`.
pub open spec fn window_key(s: Seq<u8>, start: int) -> Option<int> {
    if 0 <= start && start + 8 <= s.len() {
        key_prefix(s, start, 8)
    } else {
        None
    }
}

/// The keys of all pure 8-mers of a sequence.
pub open spec fn kmer_set(s: Seq<u8>) -> Set<int> {
    Set::new(|key: int| exists|start: int| #[trigger] window_key(s, start) == Some(key))
}

/// Whether a list of keys grows strictly from each entry to the next.
pub open spec fn strictly_increasing(keys: Seq<u16>) -> bool {
    forall|a: int, b: int| 0 <= a < b < keys.len() ==> keys[a] < keys[b]
}

/// A key prefix of `n` bases is below `4^n`.
pub proof fn lemma_key_prefix_bound(s: Seq<u8>, start: int, n: nat)
    requires
        n <= 8,
    ensures
        key_prefix(s, start, n) matches Some(key) ==> 0 <= key < pow4(n),
    decreases n,
{
    if n > 0 {
        lemma_key_prefix_bound(s, start, (n - 1) as nat);
    }
}

/// `4^n`.
pub open spec fn pow4(n: nat) -> int
    decreases n,
{
    if n == 0 {
        1
    } else {
        4 * pow4((n - 1) as nat)
    }
}

/// Every key of a pure 8-mer fits in 16 bits.
pub proof fn lemma_window_key_bound(s: Seq<u8>, start: int)
    ensures
        window_key(s, start) matches Some(key) ==> 0 <= key < 65536,
{
    lemma_key_prefix_bound(s, start, 8);
    assert(pow4(8) == 65536) by {
        reveal_with_fuel(pow4, 9);
    }
}

/// A sequence without a pure base has no 8-mer.
pub proof fn lemma_ambiguous_sequence_has_no_kmers(s: Seq<u8>)
    requires
        forall|i: int| 0 <= i < s.len() ==> two_bit_code(#[trigger] s[i]) is None,
    ensures
        kmer_set(s) =~= Set::<int>::empty(),
{
    assert forall|key: int| !kmer_set(s).contains(key) by {
        if kmer_set(s).contains(key) {
            let start = choose|start: int| #[trigger] window_key(s, start) == Some(key);
            assert(two_bit_code(s[start]) is None);
            assert(key_prefix(s, start, 1) is None);
            lemma_key_prefix_none(s, start, 1, 8);
        }
    }
}

/// A sequence shorter than eight bases has no 8-mer.
pub proof fn lemma_short_sequence_has_no_kmers(s: Seq<u8>)
    requires
        s.len() < 8,
    ensures
        kmer_set(s) =~= Set::<int>::empty(),
{
}

/// Maps a 4-bit base code to its 2-bit code.
pub fn map_four_to_two_bit_repr(c: u8) -> (r: Option<u16>)
    ensures
        r == two_bit_code(c),
{
    match c {
        1 => Some(0),
        2 => Some(1),
        4 => Some(2),
        8 => Some(3),
        _ => None,
    }
}

/// The key of the window of eight bases that starts at `start`.
pub fn kmer_at(sequence: &[u8], start: usize) -> (r: Option<u16>)
    requires
        start + 8 <= sequence@.len(),
    ensures
        r matches Some(key) ==> window_key(sequence@, start as int) == Some(key as int),
        r is None ==> window_key(sequence@, start as int) is None,
{
    let n: usize = sequence.len();
    let mut key: u16 = 0;
    let mut j: usize = 0;
    while j < 8
        invariant
            j <= 8,
            n == sequence@.len(),
            start + 8 <= n,
            key_prefix(sequence@, start as int, j as nat) == Some(key as int),
        decreases 8 - j,
    {
        proof {
            lemma_key_prefix_bound(sequence@, start as int, j as nat);
            lemma_key_prefix_bound(sequence@, start as int, (j + 1) as nat);
            assert(pow4(8) == 65536) by {
                reveal_with_fuel(pow4, 9);
            }
            lemma_pow4_monotonic((j + 1) as nat, 8);
        }
        match map_four_to_two_bit_repr(sequence[start + j]) {
            Some(code) => {
                key = 4 * key + code;
            },
            None => {
                proof {
                    lemma_key_prefix_none(sequence@, start as int, (j + 1) as nat, 8);
                }
                return None;
            },
        }
        j += 1;
    }
    Some(key)
}

/// `4^a <= 4^b` for `a <= b`.
pub proof fn lemma_pow4_monotonic(a: nat, b: nat)
    requires
        a <= b,
    ensures
        0 < pow4(a) <= pow4(b),
    decreases b,
{
    if b == 0 {
    } else if a == b {
        lemma_pow4_monotonic((a - 1) as nat, (b - 1) as nat);
    } else {
        lemma_pow4_monotonic(a, (b - 1) as nat);
    }
}

/// Once a key prefix is `None`, every longer prefix is.
pub proof fn lemma_key_prefix_none(s: Seq<u8>, start: int, n: nat, m: nat)
    requires
        n <= m,
        key_prefix(s, start, n) is None,
    ensures
        key_prefix(s, start, m) is None,
    decreases m,
{
    if n < m {
        lemma_key_prefix_none(s, start, n, (m - 1) as nat);
    }
}

/// The keys of the pure 8-mers of a sequence, each once, in ascending order.
/// Windows with an ambiguous base are passed over.
pub fn sequence_to_kmers(sequence: &[u8]) -> (k_mers: Vec<u16>)
    ensures
        strictly_increasing(k_mers@),
        forall|key: u16| k_mers@.contains(key) <==> kmer_set(sequence@).contains(key as int),
        kmer_set(sequence@).finite(),
        k_mers@.len() == kmer_set(sequence@).len(),
{
    let mut seen: Vec<bool> = vec![false; 65536];
    let n: usize = sequence.len();
    if n >= 8 {
        let mut start: usize = 0;
        while start <= n - 8
            invariant
                n >= 8,
                n == sequence@.len(),
                seen@.len() == 65536,
                start <= n,
                forall|key: int|
                    0 <= key < 65536 ==> (#[trigger] seen@[key] <==> exists|i: int|
                        0 <= i < start && #[trigger] window_key(sequence@, i) == Some(key)),
            decreases n - start,
        {
            let ghost before = seen@;
            match kmer_at(sequence, start) {
                Some(key) => {
                    seen.set(key as usize, true);
                },
                None => {},
            }
            proof {
                let s = sequence@;
                assert forall|key: int| 0 <= key < 65536 implies (#[trigger] seen@[key]
                    <==> exists|i: int|
                    0 <= i < start + 1 && #[trigger] window_key(s, i) == Some(key)) by {
                    if seen@[key] {
                        if before[key] {
                            let i = choose|i: int|
                                0 <= i < start && #[trigger] window_key(s, i) == Some(key);
                            assert(0 <= i < start + 1 && window_key(s, i) == Some(key));
                        } else {
                            assert(window_key(s, start as int) == Some(key));
                        }
                    }
                    if exists|i: int|
                        0 <= i < start + 1 && #[trigger] window_key(s, i) == Some(key) {
                        let i = choose|i: int|
                            0 <= i < start + 1 && #[trigger] window_key(s, i) == Some(key);
                        if i < start {
                            assert(before[key]);
                        }
                    }
                }
            }
            start += 1;
        }
    }
    let mut k_mers: Vec<u16> = Vec::new();
    let mut key: usize = 0;
    while key < 65536
        invariant
            key <= 65536,
            seen@.len() == 65536,
            strictly_increasing(k_mers@),
            forall|a: int| 0 <= a < k_mers@.len() ==> (#[trigger] k_mers@[a]) < key,
            forall|a: int| 0 <= a < k_mers@.len() ==> seen@[(#[trigger] k_mers@[a]) as int],
            forall|c: int| 0 <= c < key && seen@[c] ==> exists|a: int|
                0 <= a < k_mers@.len() && #[trigger] k_mers@[a] == c,
        decreases 65536 - key,
    {
        if seen[key] {
            let ghost before = k_mers@;
            k_mers.push(key as u16);
            proof {
                assert forall|c: int| 0 <= c < key + 1 && seen@[c] implies exists|a: int|
                    0 <= a < k_mers@.len() && #[trigger] k_mers@[a] == c by {
                    if c < key {
                        let a = choose|a: int| 0 <= a < before.len() && #[trigger] before[a] == c;
                        assert(k_mers@[a] == c);
                    } else {
                        assert(k_mers@[before.len() as int] == c);
                    }
                }
            }
        }
        key += 1;
    }
    proof {
        let s = sequence@;
        assert forall|key: u16| k_mers@.contains(key) <==> kmer_set(s).contains(key as int) by {
            if k_mers@.contains(key) {
                let a = choose|a: int| 0 <= a < k_mers@.len() && k_mers@[a] == key;
                assert(seen@[k_mers@[a] as int]);
                if n >= 8 {
                } else {
                    assert(false);
                }
            }
            if kmer_set(s).contains(key as int) {
                let i = choose|i: int| #[trigger] window_key(s, i) == Some(key as int);
                assert(0 <= i && i + 8 <= n);
                assert(seen@[key as int]);
                let a = choose|a: int| 0 <= a < k_mers@.len() && #[trigger] k_mers@[a] == key as int;
                assert(k_mers@[a] == key);
            }
        }
        lemma_key_list_counts_set(k_mers@, s);
    }
    k_mers
}

/// A strictly increasing list of the keys of a sequence has as many entries
/// as the sequence has keys.
pub proof fn lemma_key_list_counts_set(keys: Seq<u16>, s: Seq<u8>)
    requires
        strictly_increasing(keys),
        forall|key: u16| keys.contains(key) <==> kmer_set(s).contains(key as int),
    ensures
        kmer_set(s).finite(),
        keys.len() == kmer_set(s).len(),
{
    let numbers = keys.map_values(|key: u16| key as int);
    assert(numbers.no_duplicates()) by {
        assert forall|a: int, b: int|
            0 <= a < numbers.len() && 0 <= b < numbers.len() && a != b implies numbers[a]
            != numbers[b] by {
            if a < b {
                assert(keys[a] < keys[b]);
            } else {
                assert(keys[b] < keys[a]);
            }
        }
    }
    assert(numbers.to_set() =~= kmer_set(s)) by {
        assert forall|key: int| numbers.to_set().contains(key) <==> kmer_set(s).contains(key) by {
            if numbers.to_set().contains(key) {
                let a = choose|a: int| 0 <= a < numbers.len() && numbers[a] == key;
                assert(keys.contains(keys[a]));
            }
            if kmer_set(s).contains(key) {
                let i = choose|i: int| #[trigger] window_key(s, i) == Some(key);
                lemma_window_key_bound(s, i);
                assert(keys.contains(key as u16));
                let a = choose|a: int| 0 <= a < keys.len() && keys[a] == key as u16;
                assert(numbers[a] == key);
                assert(numbers.contains(key));
            }
        }
    }
    numbers.unique_seq_to_set();
    vstd::seq_lib::seq_to_set_is_finite(numbers);
}

/// The letter of a 4-bit code: the letter of the base for a pure base, a
/// dash for everything else.
pub open spec fn base_letter(code: u8) -> char {
    if code == 1 {
        'A'
    } else if code == 2 {
        'C'
    } else if code == 4 {
        'G'
    } else if code == 8 {
        'T'
    } else {
        '-'
    }
}

/// The letters of an encoded sequence.
pub open spec fn decode(codes: Seq<u8>) -> Seq<char> {
    Seq::new(codes.len(), |i: int| base_letter(codes[i]))
}

/// The letters of an encoded sequence.
pub fn decode_sequence(codes: &Vec<u8>) -> (letters: Vec<char>)
    ensures
        letters@ == decode(codes@),
{
    let mut letters: Vec<char> = Vec::new();
    let mut i: usize = 0;
    while i < codes.len()
        invariant
            i <= codes@.len(),
            letters@ == decode(codes@).take(i as int),
        decreases codes@.len() - i,
    {
        let letter: char = match codes[i] {
            1 => 'A',
            2 => 'C',
            4 => 'G',
            8 => 'T',
            _ => '-',
        };
        letters.push(letter);
        assert(decode(codes@).take(i + 1) =~= decode(codes@).take(i as int).push(letter));
        i += 1;
    }
    assert(decode(codes@).take(codes@.len() as int) =~= decode(codes@));
    letters
}

/// The sequences of the queries in letters, query by query.
pub fn decompress_sequences(sequences: &[(String, Vec<u8>)]) -> (letters: Vec<String>)
    ensures
        letters@.len() == sequences@.len(),
        forall|i: int| 0 <= i < sequences@.len() ==> (#[trigger] letters@[i])@ == decode(sequences@[i].1@),
{
    let mut letters: Vec<String> = Vec::new();
    let mut i: usize = 0;
    while i < sequences.len()
        invariant
            i <= sequences@.len(),
            letters@.len() == i,
            forall|k: int| 0 <= k < i ==> (#[trigger] letters@[k])@ == decode(sequences@[k].1@),
        decreases sequences@.len() - i,
    {
        let chars = decode_sequence(&sequences[i].1);
        let text = string_of(&chars, 0, chars.len());
        assert(chars@.subrange(0, chars@.len() as int) =~= chars@);
        letters.push(text);
        i += 1;
    }
    letters
}

/// The lines of the primary output of all queries, in order.
pub open spec fn output_lines(results: Seq<Vec<EvaluationResult>>) -> Seq<Seq<char>>
    decreases results.len(),
{
    if results.len() == 0 {
        Seq::empty()
    } else {
        output_lines(results.drop_last()) + Seq::new(
            results.last()@.len(),
            |k: int| results.last()@[k].output_line(),
        )
    }
}

/// The lines of the TSV output of all queries, in order; `sequences[q]` is
/// the sequence of query `q` in letters.
pub open spec fn tsv_lines(results: Seq<Vec<EvaluationResult>>, sequences: Seq<Seq<char>>) -> Seq<Seq<char>>
    decreases results.len(),
{
    if results.len() == 0 {
        Seq::empty()
    } else {
        tsv_lines(results.drop_last(), sequences) + Seq::new(
            results.last()@.len(),
            |k: int| results.last()@[k].tsv_line(sequences[results.len() - 1]),
        )
    }
}

/// The text of the primary output: one line for each reported lineage of
/// each query, every line but the last ended by a line feed, and one line
/// feed at the end.
pub fn output_results(results: &[Vec<EvaluationResult>]) -> (text: String)
    ensures
        text@ == join(output_lines(results@), seq!['\n']) + seq!['\n'],
{
    let mut lines: Vec<Vec<char>> = Vec::new();
    let mut q: usize = 0;
    while q < results.len()
        invariant
            q <= results@.len(),
            views(lines@) == output_lines(results@.take(q as int)),
        decreases results@.len() - q,
    {
        let of_query = &results[q];
        let ghost before = views(lines@);
        let ghost wanted = Seq::new(of_query@.len(), |k: int| of_query@[k].output_line());
        let mut k: usize = 0;
        while k < of_query.len()
            invariant
                k <= of_query@.len(),
                wanted == Seq::new(of_query@.len(), |k: int| of_query@[k].output_line()),
                views(lines@) == before + wanted.take(k as int),
            decreases of_query@.len() - k,
        {
            let line = of_query[k].get_output_string();
            let chars = crate::text::chars_of(line.as_str());
            let ghost held = lines@;
            lines.push(chars);
            proof {
                lemma_views_push(held, chars);
                assert(before + wanted.take(k + 1) =~= (before + wanted.take(k as int)).push(chars@));
            }
            k += 1;
        }
        proof {
            assert(wanted.take(of_query@.len() as int) =~= wanted);
            assert(results@.take(q + 1).drop_last() =~= results@.take(q as int));
            assert(results@.take(q + 1).last() == results@[q as int]);
        }
        q += 1;
    }
    assert(results@.take(results@.len() as int) =~= results@);
    let mut feed: Vec<char> = Vec::new();
    feed.push('\n');
    assert(feed@ =~= seq!['\n']);
    let mut out = join_chars(&lines, &feed);
    out.push('\n');
    let text = string_of(&out, 0, out.len());
    assert(out@.subrange(0, out@.len() as int) =~= out@);
    assert(out@ =~= join(output_lines(results@), seq!['\n']) + seq!['\n']);
    text
}

/// The text of the TSV output: one line for each reported lineage of each
/// query, with the sequence of the query at its end; every line but the last
/// is ended by a line feed, and one line feed stands at the end.
pub fn output_results_tsv(results: &[Vec<EvaluationResult>], sequences: Vec<String>) -> (text: String)
    requires
        results@.len() == sequences@.len(),
    ensures
        text@ == join(tsv_lines(results@, views(sequences@)), seq!['\n']) + seq!['\n'],
{
    let mut lines: Vec<Vec<char>> = Vec::new();
    let ghost letters = views(sequences@);
    let mut q: usize = 0;
    while q < results.len()
        invariant
            q <= results@.len(),
            results@.len() == sequences@.len(),
            letters == views(sequences@),
            views(lines@) == tsv_lines(results@.take(q as int), letters),
        decreases results@.len() - q,
    {
        let of_query = &results[q];
        let sequence = &sequences[q];
        let ghost before = views(lines@);
        let ghost wanted = Seq::new(of_query@.len(), |k: int| of_query@[k].tsv_line(sequence@));
        let mut k: usize = 0;
        while k < of_query.len()
            invariant
                k <= of_query@.len(),
                wanted == Seq::new(of_query@.len(), |k: int| of_query@[k].tsv_line(sequence@)),
                views(lines@) == before + wanted.take(k as int),
            decreases of_query@.len() - k,
        {
            let line = of_query[k].get_tsv_string(sequence);
            let chars = crate::text::chars_of(line.as_str());
            let ghost held = lines@;
            lines.push(chars);
            proof {
                lemma_views_push(held, chars);
                assert(before + wanted.take(k + 1) =~= (before + wanted.take(k as int)).push(chars@));
            }
            k += 1;
        }
        proof {
            assert(wanted.take(of_query@.len() as int) =~= wanted);
            assert(results@.take(q + 1).drop_last() =~= results@.take(q as int));
            assert(results@.take(q + 1).last() == results@[q as int]);
            assert(letters[q as int] == sequence@);
            assert(results@.take(q + 1).len() - 1 == q);
            assert(wanted =~= Seq::new(
                results@.take(q + 1).last()@.len(),
                |k: int| results@.take(q + 1).last()@[k].tsv_line(letters[results@.take(q + 1).len() - 1]),
            ));
        }
        q += 1;
    }
    assert(results@.take(results@.len() as int) =~= results@);
    let mut feed: Vec<char> = Vec::new();
    feed.push('\n');
    assert(feed@ =~= seq!['\n']);
    let mut out = join_chars(&lines, &feed);
    out.push('\n');
    let text = string_of(&out, 0, out.len());
    assert(out@.subrange(0, out@.len() as int) =~= out@);
    assert(out@ =~= join(tsv_lines(results@, letters), seq!['\n']) + seq!['\n']);
    text
}

} // verus!
