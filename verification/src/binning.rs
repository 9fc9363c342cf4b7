//! Binning: where every reference belongs to a bin, the mass of the
//! references is added up bin by bin, and the heaviest bin is reported.

use crate::lineage::{
    hundredths, lemma_mass_before_monotonic, mass_before, total_mass, CONFIDENCE_ACCURACY,
};
use crate::order::lemma_sorted_order;
use crate::text::{
    chars_of, code_points, fixed_point, lex_lt, push_fixed_point, push_str, split_chars, split_on,
    string_of, views,
};
use crate::tree::{index_order, lemma_row_leq_total, row_leq, row_order};
use vstd::prelude::*;

verus! {

/// The label of the bin of a reference: the header of the reference up to
/// its first bar, the whole header where it has none.
pub open spec fn bin_label_of(header: Seq<char>) -> Seq<char> {
    split_on(header, '|')[0]
}

/// The label of the bin of a reference, from the header of the reference.
pub fn bin_label(header: &str) -> (label: String)
    ensures
        label@ == bin_label_of(header@),
{
    let chars = chars_of(header);
    let parts = split_chars(&chars, '|');
    let first = &parts[0];
    assert(views(parts@)[0] == first@);
    let label = string_of(first, 0, first.len());
    assert(first@.subrange(0, first@.len() as int) =~= first@);
    label
}

/// The bins of the references with the given labels: the names of the bins
/// are the labels, each once, in ascending order, and every reference
/// belongs to the bin that is named by its label.
pub open spec fn are_bins_of(of_reference: Seq<usize>, names: Seq<Seq<char>>, labels: Seq<Seq<char>>) -> bool {
    &&& of_reference.len() == labels.len()
    &&& forall|a: int, b: int|
        0 <= a < b < names.len() ==> lex_lt(code_points(#[trigger] names[a]), code_points(#[trigger] names[b]))
    &&& forall|r: int|
        0 <= r < labels.len() ==> (#[trigger] of_reference[r]) < names.len() && names[of_reference[r] as int]
            == labels[r]
    &&& forall|a: int| 0 <= a < names.len() ==> labels.contains(#[trigger] names[a])
}

/// Groups the references into bins by their labels: for every reference the
/// number of its bin, and the names of the bins.
pub fn group_bins(labels: &Vec<String>) -> (bins: (Vec<usize>, Vec<String>))
    ensures
        are_bins_of(bins.0@, views(bins.1@), views(labels@)),
{
    let ghost ls = views(labels@);
    let n: usize = labels.len();
    let order = index_order(labels);
    proof {
        lemma_row_leq_total(ls);
        lemma_sorted_order(ls.len(), row_leq(ls));
    }
    let mut of_reference: Vec<usize> = Vec::new();
    let mut r: usize = 0;
    while r < n
        invariant
            r <= n,
            of_reference@.len() == r,
        decreases n - r,
    {
        of_reference.push(0);
        r += 1;
    }
    let mut names: Vec<String> = Vec::new();
    let mut k: usize = 0;
    while k < n
        invariant
            k <= n,
            n == labels@.len(),
            ls == views(labels@),
            order@ == row_order(ls),
            order@.len() == n,
            order@.no_duplicates(),
            vstd::relations::sorted_by(order@, row_leq(ls)),
            forall|a: int| 0 <= a < n ==> (#[trigger] order@[a]) < n,
            of_reference@.len() == n,
            k == 0 ==> names@.len() == 0,
            k > 0 ==> names@.len() > 0 && names@[names@.len() - 1]@ == ls[order@[k - 1] as int],
            forall|a: int, b: int|
                0 <= a < b < names@.len() ==> lex_lt(
                    code_points((#[trigger] names@[a])@),
                    code_points((#[trigger] names@[b])@),
                ),
            forall|j: int|
                0 <= j < k ==> of_reference@[(#[trigger] order@[j]) as int] < names@.len()
                    && names@[of_reference@[order@[j] as int] as int]@ == ls[order@[j] as int],
            forall|a: int| 0 <= a < names@.len() ==> ls.contains((#[trigger] names@[a])@),
        decreases n - k,
    {
        let row: usize = order[k];
        let ghost label = ls[row as int];
        assert(label == labels@[row as int]@);
        let fresh: bool = k == 0 || labels[order[k - 1]] != labels[row];
        let ghost held = names@;
        if fresh {
            proof {
                if k > 0 {
                    let before = ls[order@[k - 1] as int];
                    assert(before == labels@[order@[k - 1] as int]@);
                    assert(row_leq(ls)(order@[k - 1], order@[k as int]));
                    assert(lex_lt(code_points(before), code_points(label)));
                    assert forall|a: int| 0 <= a < held.len() implies lex_lt(
                        code_points((#[trigger] held[a])@),
                        code_points(label),
                    ) by {
                        if a < held.len() - 1 {
                            crate::text::lemma_lex_lt_transitive(
                                code_points(held[a]@),
                                code_points(before),
                                code_points(label),
                            );
                        }
                    }
                }
            }
            names.push(labels[row].clone());
            proof {
                assert(ls.contains(label));
            }
        }
        let bin: usize = names.len() - 1;
        let ghost earlier = of_reference@;
        of_reference.set(row, bin);
        proof {
            assert forall|j: int| 0 <= j < k + 1 implies of_reference@[(#[trigger] order@[j]) as int]
                < names@.len() && names@[of_reference@[order@[j] as int] as int]@ == ls[order@[j] as int] by {
                if j < k {
                    assert(order@[j] != order@[k as int]);
                    assert(of_reference@[order@[j] as int] == earlier[order@[j] as int]);
                    assert(earlier[order@[j] as int] < held.len());
                    if fresh {
                        assert(names@[earlier[order@[j] as int] as int] == held[earlier[order@[j] as int] as int]);
                    }
                }
            }
        }
        k += 1;
    }
    proof {
        assert forall|r: int| 0 <= r < n implies (#[trigger] of_reference@[r]) < names@.len() && views(
            names@,
        )[of_reference@[r] as int] == ls[r] by {
            assert(order@.contains(r as usize));
            let j = choose|j: int| 0 <= j < order@.len() && order@[j] == r as usize;
            assert(of_reference@[order@[j] as int] < names@.len());
        }
        assert forall|a: int, b: int| 0 <= a < b < views(names@).len() implies lex_lt(
            code_points(#[trigger] views(names@)[a]),
            code_points(#[trigger] views(names@)[b]),
        ) by {
            assert(lex_lt(code_points(names@[a]@), code_points(names@[b]@)));
        }
        assert forall|a: int| 0 <= a < views(names@).len() implies ls.contains(
            #[trigger] views(names@)[a],
        ) by {
            assert(ls.contains(names@[a]@));
        }
    }
    (of_reference, names)
}

/// The mass that the references before reference `upto` bring to a bin.
pub open spec fn bin_mass(bins: Seq<usize>, values: Seq<u64>, bin: int, upto: int) -> int
    decreases upto,
{
    if upto <= 0 {
        0
    } else {
        bin_mass(bins, values, bin, upto - 1) + if bins[upto - 1] == bin {
            values[upto - 1] as int
        } else {
            0
        }
    }
}

/// A bin holds at most the mass of all references looked at.
pub proof fn lemma_bin_mass_bound(bins: Seq<usize>, values: Seq<u64>, bin: int, upto: int)
    ensures
        0 <= bin_mass(bins, values, bin, upto) <= mass_before(values, upto),
    decreases upto,
{
    if upto > 0 {
        lemma_bin_mass_bound(bins, values, bin, upto - 1);
    }
}

/// Whether `best` is the heaviest of the bins `0..bin_count`, the first of
/// them where several are equally heavy.
pub open spec fn is_best_bin(bins: Seq<usize>, values: Seq<u64>, bin_count: int, best: int) -> bool {
    &&& 0 <= best < bin_count
    &&& forall|bin: int|
        0 <= bin < bin_count ==> #[trigger] bin_mass(bins, values, bin, values.len() as int)
            <= bin_mass(bins, values, best, values.len() as int)
    &&& forall|bin: int|
        0 <= bin < best ==> #[trigger] bin_mass(bins, values, bin, values.len() as int) < bin_mass(
            bins,
            values,
            best,
            values.len() as int,
        )
}

/// The heaviest bin and its mass: `bins[r]` is the bin of reference `r` and
/// `values[r]` its mass. Where several bins are equally heavy, the first of
/// them is the best. Without a bin there is no best bin.
pub fn best_bin(bins: &Vec<usize>, bin_count: usize, values: &Vec<u64>) -> (best: Option<(usize, u64)>)
    requires
        bins@.len() == values@.len(),
        forall|r: int| 0 <= r < bins@.len() ==> (#[trigger] bins@[r]) < bin_count,
        total_mass(values@) <= u64::MAX,
    ensures
        best is None <==> bin_count == 0,
        best matches Some(found) ==> is_best_bin(bins@, values@, bin_count as int, found.0 as int)
            && found.1 == bin_mass(bins@, values@, found.0 as int, values@.len() as int),
{
    if bin_count == 0 {
        return None;
    }
    let n: usize = values.len();
    let mut masses: Vec<u64> = Vec::new();
    let mut bin: usize = 0;
    while bin < bin_count
        invariant
            bin <= bin_count,
            masses@.len() == bin,
            forall|c: int| 0 <= c < bin ==> (#[trigger] masses@[c]) == 0,
        decreases bin_count - bin,
    {
        masses.push(0);
        bin += 1;
    }
    let mut r: usize = 0;
    while r < n
        invariant
            r <= n,
            n == values@.len(),
            bins@.len() == n,
            masses@.len() == bin_count,
            total_mass(values@) <= u64::MAX,
            forall|k: int| 0 <= k < bins@.len() ==> (#[trigger] bins@[k]) < bin_count,
            forall|c: int|
                0 <= c < bin_count ==> (#[trigger] masses@[c]) == bin_mass(bins@, values@, c, r as int),
        decreases n - r,
    {
        let of: usize = bins[r];
        proof {
            lemma_bin_mass_bound(bins@, values@, of as int, r + 1);
            lemma_mass_before_monotonic(values@, r + 1, n as int);
        }
        masses.set(of, masses[of] + values[r]);
        r += 1;
    }
    let mut best: usize = 0;
    let mut c: usize = 1;
    while c < bin_count
        invariant
            1 <= c <= bin_count,
            best < c,
            masses@.len() == bin_count,
            forall|k: int| 0 <= k < c ==> (#[trigger] masses@[k]) <= masses@[best as int],
            forall|k: int| 0 <= k < best ==> (#[trigger] masses@[k]) < masses@[best as int],
        decreases bin_count - c,
    {
        if masses[c] > masses[best] {
            best = c;
        }
        c += 1;
    }
    proof {
        assert forall|k: int| 0 <= k < bin_count implies #[trigger] bin_mass(bins@, values@, k, n as int)
            <= bin_mass(bins@, values@, best as int, n as int) by {
            assert(masses@[k] <= masses@[best as int]);
        }
        assert forall|k: int| 0 <= k < best implies #[trigger] bin_mass(bins@, values@, k, n as int)
            < bin_mass(bins@, values@, best as int, n as int) by {
            assert(masses@[k] < masses@[best as int]);
        }
    }
    Some((best, masses[best]))
}

/// The line of the binning output: the label of the query, the name of its
/// best bin and the mass of this bin in hundredths, with two decimals and
/// with tabs between the fields.
pub open spec fn binning_line_of(query_label: Seq<char>, bin: Seq<char>, score: nat) -> Seq<char> {
    query_label + seq!['\t'] + bin + seq!['\t'] + fixed_point(score, CONFIDENCE_ACCURACY as nat)
}

/// The line of the binning output for a query whose best bin has the given
/// mass, where `unit` is the mass of the probability one.
pub fn binning_line(query_label: &String, bin: &String, mass: u64, unit: u64) -> (line: String)
    requires
        unit > 0,
        200 * mass + unit <= u64::MAX,
    ensures
        line@ == binning_line_of(query_label@, bin@, hundredths(mass as int, unit as int) as nat),
{
    let doubled: u128 = 200 * (mass as u128) + unit as u128;
    let score: u128 = doubled / (2 * (unit as u128));
    assert(0 <= score <= doubled) by (nonlinear_arith)
        requires
            score as int == (doubled as int) / (2 * (unit as int)),
            doubled >= 0,
            unit > 0,
    ;
    let mut out: Vec<char> = Vec::new();
    push_str(&mut out, query_label.as_str());
    out.push('\t');
    push_str(&mut out, bin.as_str());
    out.push('\t');
    push_fixed_point(&mut out, score as u64, CONFIDENCE_ACCURACY);
    let line = string_of(&out, 0, out.len());
    assert(out@.subrange(0, out@.len() as int) =~= out@);
    assert(out@ =~= binning_line_of(query_label@, bin@, hundredths(mass as int, unit as int) as nat));
    line
}

} // verus!
