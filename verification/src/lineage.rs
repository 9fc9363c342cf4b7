//! The lineage evaluator: rolls the probability mass of the references up
//! the lineage trie and lists the lineages that carry visible mass, the
//! heaviest first.
//!
//! Mass is counted in whole units; `unit` of them make up the probability
//! one. A confidence value is mass rounded to hundredths of the probability
//! one, halves rounded up.

use crate::order::{lemma_sorted_order, sort_indices, sorted_order, Keys};
use crate::text::{
    chars_of, fixed_point, interleave, interleave_lists, join, join_chars, lemma_lex_lt_asymmetric,
    lemma_lex_lt_irreflexive, lemma_lex_lt_total, lemma_lex_lt_transitive, lemma_numbers_injective,
    lemma_views_push, lex_less_numbers, lex_lt, numbers, push_chars, push_fixed_point, push_str,
    split_chars, split_on, string_of, views,
};
use crate::tree::{lemma_node_view, paths_of, Node, Tree};
use crate::trie::{
    children_cover, lemma_taxa_at_depth_child, lemma_taxa_closed_child, lemma_well_formed_child,
    lemma_well_formed_node, node_at, taxa_at_depth, taxa_closed, well_formed, NodeType, NodeView,
};
use vstd::prelude::*;
use vstd::relations::total_ordering;

verus! {

/// The number of decimals that a signal is reported with.
pub const SIGNAL_ACCURACY: u32 = 5;

/// The number of decimals that a confidence value is reported with.
pub const CONFIDENCE_ACCURACY: u32 = 2;

/// One reported lineage of a query: the lineage, the confidence of each of
/// its ranks in hundredths, and the two signals of the query in units of
/// `10^-5`.
#[derive(Debug, Clone)]
pub struct EvaluationResult<'a, 'b> {
    pub query_label: &'b String,
    pub lineage: &'a String,
    pub confidence_values: Vec<u64>,
    pub local_signal: u64,
    pub global_signal: u64,
}

/// A reported lineage as plain values.
pub struct ResultView {
    pub query_label: Seq<char>,
    pub lineage: Seq<char>,
    pub confidence_values: Seq<u64>,
    pub local_signal: u64,
    pub global_signal: u64,
}

impl<'a, 'b> View for EvaluationResult<'a, 'b> {
    type V = ResultView;

    open spec fn view(&self) -> ResultView {
        ResultView {
            query_label: self.query_label@,
            lineage: self.lineage@,
            confidence_values: self.confidence_values@,
            local_signal: self.local_signal,
            global_signal: self.global_signal,
        }
    }
}

/// The confidence values as decimal fractions with two decimals.
pub open spec fn confidence_texts(values: Seq<u64>) -> Seq<Seq<char>> {
    Seq::new(values.len(), |i: int| fixed_point(values[i] as nat, CONFIDENCE_ACCURACY as nat))
}

/// A text without a tab, followed by a tab and more, has the text as its
/// first field.
pub proof fn lemma_first_field_of_tabbed(field: Seq<char>, rest: Seq<char>)
    requires
        forall|i: int| 0 <= i < field.len() ==> field[i] != '\t',
    ensures
        crate::io::first_field(field + seq!['\t'] + rest) == field,
    decreases field.len(),
{
    let line = field + seq!['\t'] + rest;
    if field.len() == 0 {
        assert(line.first() == '\t');
        assert(crate::io::first_field(line) =~= field);
    } else {
        let shorter = field.drop_first();
        assert(line.first() == field[0]);
        assert(line.drop_first() =~= shorter + seq!['\t'] + rest);
        assert forall|i: int| 0 <= i < shorter.len() implies shorter[i] != '\t' by {
            assert(shorter[i] == field[i + 1]);
        }
        lemma_first_field_of_tabbed(shorter, rest);
        assert(seq![field[0]] + shorter =~= field);
    }
}

impl<'a, 'b> EvaluationResult<'a, 'b> {
    /// Both output lines of a result begin with the label of the query as
    /// their first field, where the label holds no tab.
    pub proof fn lemma_lines_begin_with_label(&self, sequence: Seq<char>)
        requires
            forall|i: int| 0 <= i < self.query_label@.len() ==> self.query_label@[i] != '\t',
        ensures
            crate::io::first_field(self.output_line()) == self.query_label@,
            crate::io::first_field(self.tsv_line(sequence)) == self.query_label@,
    {
        let label = self.query_label@;
        let tab = seq!['\t'];
        let signals = fixed_point(self.local_signal as nat, SIGNAL_ACCURACY as nat) + tab + fixed_point(
            self.global_signal as nat,
            SIGNAL_ACCURACY as nat,
        );
        let rest = self.lineage@ + tab + join(confidence_texts(self.confidence_values@), seq![','])
            + tab + signals;
        assert(self.output_line() =~= label + tab + rest);
        lemma_first_field_of_tabbed(label, rest);
        let columns = join(
            interleave(split_on(self.lineage@, ','), confidence_texts(self.confidence_values@)),
            tab,
        );
        let tsv_rest = columns + tab + signals + tab + sequence;
        assert(self.tsv_line(sequence) =~= label + tab + tsv_rest);
        lemma_first_field_of_tabbed(label, tsv_rest);
    }

    /// The line of the primary output: label, lineage, the confidence
    /// values with commas between them, local signal and global signal,
    /// with tabs between the fields.
    pub open spec fn output_line(&self) -> Seq<char> {
        self.query_label@ + seq!['\t'] + self.lineage@ + seq!['\t'] + join(
            confidence_texts(self.confidence_values@),
            seq![','],
        ) + seq!['\t'] + fixed_point(self.local_signal as nat, SIGNAL_ACCURACY as nat) + seq!['\t']
            + fixed_point(self.global_signal as nat, SIGNAL_ACCURACY as nat)
    }

    /// The line of the TSV output: label, the ranks of the lineage in turn
    /// with their confidence values, local signal, global signal and the
    /// sequence of the query, with tabs between the fields.
    pub open spec fn tsv_line(&self, sequence: Seq<char>) -> Seq<char> {
        self.query_label@ + seq!['\t'] + join(
            interleave(split_on(self.lineage@, ','), confidence_texts(self.confidence_values@)),
            seq!['\t'],
        ) + seq!['\t'] + fixed_point(self.local_signal as nat, SIGNAL_ACCURACY as nat) + seq!['\t']
            + fixed_point(self.global_signal as nat, SIGNAL_ACCURACY as nat) + seq!['\t'] + sequence
    }

    /// The confidence values as decimal fractions with two decimals.
    fn confidence_fields(&self) -> (fields: Vec<Vec<char>>)
        ensures
            views(fields@) == confidence_texts(self.confidence_values@),
    {
        let mut fields: Vec<Vec<char>> = Vec::new();
        let mut i: usize = 0;
        while i < self.confidence_values.len()
            invariant
                i <= self.confidence_values@.len(),
                views(fields@) == confidence_texts(self.confidence_values@).take(i as int),
            decreases self.confidence_values@.len() - i,
        {
            let mut field: Vec<char> = Vec::new();
            push_fixed_point(&mut field, self.confidence_values[i], CONFIDENCE_ACCURACY);
            let ghost held = fields@;
            fields.push(field);
            proof {
                lemma_views_push(held, field);
                assert(field@ =~= fixed_point(
                    self.confidence_values@[i as int] as nat,
                    CONFIDENCE_ACCURACY as nat,
                ));
                assert(confidence_texts(self.confidence_values@).take(i + 1) =~= confidence_texts(
                    self.confidence_values@,
                ).take(i as int).push(field@));
            }
            i += 1;
        }
        assert(confidence_texts(self.confidence_values@).take(self.confidence_values@.len() as int)
            =~= confidence_texts(self.confidence_values@));
        fields
    }

    /// The line of the primary output for this lineage.
    pub fn get_output_string(&self) -> (line: String)
        ensures
            line@ == self.output_line(),
    {
        let mut out: Vec<char> = Vec::new();
        push_str(&mut out, self.query_label.as_str());
        out.push('\t');
        push_str(&mut out, self.lineage.as_str());
        out.push('\t');
        let fields = self.confidence_fields();
        let mut comma: Vec<char> = Vec::new();
        comma.push(',');
        let joined = join_chars(&fields, &comma);
        assert(comma@ =~= seq![',']);
        push_chars(&mut out, &joined);
        out.push('\t');
        push_fixed_point(&mut out, self.local_signal, SIGNAL_ACCURACY);
        out.push('\t');
        push_fixed_point(&mut out, self.global_signal, SIGNAL_ACCURACY);
        assert(out@ =~= self.output_line());
        let line = string_of(&out, 0, out.len());
        assert(out@.subrange(0, out@.len() as int) =~= out@);
        line
    }

    /// The line of the TSV output for this lineage, with the sequence of
    /// the query in letters.
    pub fn get_tsv_string(&self, sequence: &String) -> (line: String)
        ensures
            line@ == self.tsv_line(sequence@),
    {
        let mut out: Vec<char> = Vec::new();
        push_str(&mut out, self.query_label.as_str());
        out.push('\t');
        let lineage = chars_of(self.lineage.as_str());
        let ranks = split_chars(&lineage, ',');
        let fields = self.confidence_fields();
        let columns = interleave_lists(ranks, fields);
        let mut tab: Vec<char> = Vec::new();
        tab.push('\t');
        assert(tab@ =~= seq!['\t']);
        let joined = join_chars(&columns, &tab);
        push_chars(&mut out, &joined);
        out.push('\t');
        push_fixed_point(&mut out, self.local_signal, SIGNAL_ACCURACY);
        out.push('\t');
        push_fixed_point(&mut out, self.global_signal, SIGNAL_ACCURACY);
        out.push('\t');
        push_str(&mut out, sequence.as_str());
        assert(out@ =~= self.tsv_line(sequence@));
        let line = string_of(&out, 0, out.len());
        assert(out@.subrange(0, out@.len() as int) =~= out@);
        line
    }
}

/// The confidence value that stands for a rank that was passed over when an
/// inner node without visible mass below it was collapsed into one row.
pub const COLLAPSED_CONFIDENCE: u64 = 1;

/// The number of hundredths that make up the probability one.
pub const ROUNDING_FACTOR: u64 = 100;

/// The mass of the references before reference `upto`.
pub open spec fn mass_before(values: Seq<u64>, upto: int) -> int
    decreases upto,
{
    if upto <= 0 {
        0
    } else {
        mass_before(values, upto - 1) + values[upto - 1]
    }
}

/// The mass of the references `lo..hi`.
pub open spec fn range_mass(values: Seq<u64>, lo: int, hi: int) -> int {
    mass_before(values, hi) - mass_before(values, lo)
}

/// The mass of all references.
pub open spec fn total_mass(values: Seq<u64>) -> int {
    mass_before(values, values.len() as int)
}

/// Mass in hundredths of the probability one, rounded to the nearest whole
/// number, halves up.
pub open spec fn hundredths(mass: int, unit: int) -> int {
    (200 * mass + unit) / (2 * unit)
}

/// The confidence value of a node: its mass in rounded hundredths.
pub open spec fn node_confidence(values: Seq<u64>, unit: int, node: NodeView) -> int {
    hundredths(range_mass(values, node.lo, node.hi), unit)
}

/// The mass before a reference does not shrink as the reference moves on.
pub proof fn lemma_mass_before_monotonic(values: Seq<u64>, lo: int, hi: int)
    requires
        lo <= hi,
    ensures
        0 <= mass_before(values, lo) <= mass_before(values, hi),
    decreases hi,
{
    if hi > 0 {
        if lo < hi {
            lemma_mass_before_monotonic(values, lo, hi - 1);
        } else {
            lemma_mass_before_monotonic(values, lo - 1, hi - 1);
        }
    }
}

/// The mass of the first `k` of `children`, taken together.
pub open spec fn children_mass(values: Seq<u64>, children: Seq<NodeView>, k: int) -> int
    decreases k,
{
    if k <= 0 {
        0
    } else {
        children_mass(values, children, k - 1) + range_mass(values, children[k - 1].lo, children[k - 1].hi)
    }
}

/// Children whose ranges follow one another without a gap carry, taken
/// together, the mass of the references from the start of the first to the
/// end of the last.
pub proof fn lemma_children_mass(values: Seq<u64>, node: NodeView, k: int)
    requires
        children_cover(node),
        1 <= k <= node.children.len(),
    ensures
        children_mass(values, node.children, k) == range_mass(values, node.lo, node.children[k - 1].hi),
    decreases k,
{
    if k > 1 {
        lemma_children_mass(values, node, k - 1);
        assert(node.children[k - 2].hi == node.children[k - 1].lo);
    } else {
        assert(children_mass(values, node.children, 0) == 0);
    }
}

/// Whatever mass the references have: in a trie whose ranges are in order,
/// the mass of every node that has children is the mass of its children
/// taken together.
pub proof fn lemma_mass_is_sum_of_children(values: Seq<u64>, root: NodeView, path: Seq<int>)
    requires
        well_formed(root),
        node_at(root, path) is Some,
        node_at(root, path)->0.children.len() > 0,
    ensures
        range_mass(values, node_at(root, path)->0.lo, node_at(root, path)->0.hi) == children_mass(
            values,
            node_at(root, path)->0.children,
            node_at(root, path)->0.children.len() as int,
        ),
{
    let node = node_at(root, path)->0;
    lemma_well_formed_node(root, path);
    lemma_children_mass(values, node, node.children.len() as int);
}

/// Without mass no child of any node is visible.
pub proof fn lemma_no_mass_no_confidence(values: Seq<u64>, unit: int, node: NodeView)
    requires
        unit > 0,
        forall|r: int| 0 <= r < values.len() ==> values[r] == 0,
        0 <= node.lo <= node.hi <= values.len(),
    ensures
        node_confidence(values, unit, node) == 0,
{
    lemma_mass_before_zero(values, node.lo);
    lemma_mass_before_zero(values, node.hi);
    assert((200 * 0 + unit) / (2 * unit) == 0) by (nonlinear_arith)
        requires
            unit > 0,
    ;
}

/// Where no reference has mass, there is no mass before any reference.
pub proof fn lemma_mass_before_zero(values: Seq<u64>, upto: int)
    requires
        forall|r: int| 0 <= r < values.len() ==> values[r] == 0,
        upto <= values.len(),
    ensures
        mass_before(values, upto) == 0,
    decreases upto,
{
    if upto > 0 {
        lemma_mass_before_zero(values, upto - 1);
    }
}

/// Where no reference has mass, the evaluation of a database gives one row:
/// the row in which the root of the trie is collapsed.
pub proof fn lemma_no_mass_collapses(values: Seq<u64>, unit: int, root: NodeView)
    requires
        unit > 0,
        forall|r: int| 0 <= r < values.len() ==> values[r] == 0,
        well_formed(root),
        0 <= root.lo,
        root.hi <= values.len(),
        root.node_type == NodeType::Inner,
    ensures
        emitted(values, unit, root, Seq::empty(), Seq::empty()) == seq![
            collapsed_row(values, root, Seq::empty(), Seq::empty()),
        ],
{
    let none = Seq::<u64>::empty();
    let no_sizes = Seq::<usize>::empty();
    lemma_no_mass_no_children_rows(values, unit, root, none, no_sizes, root.children.len());
    assert(!any_significant(values, unit, root, root.children.len() as int)) by {
        if any_significant(values, unit, root, root.children.len() as int) {
            let i = choose|i: int|
                0 <= i < root.children.len() && node_confidence(values, unit, #[trigger] root.children[i])
                    != 0;
            lemma_well_formed_child(root, i);
            lemma_no_mass_no_confidence(values, unit, root.children[i]);
        }
    }
    assert(emitted(values, unit, root, none, no_sizes) =~= seq![
        collapsed_row(values, root, none, no_sizes),
    ]);
}

/// Where no reference has mass, the children of a node give no row.
pub proof fn lemma_no_mass_no_children_rows(
    values: Seq<u64>,
    unit: int,
    node: NodeView,
    confidence: Seq<u64>,
    expected: Seq<usize>,
    k: nat,
)
    requires
        unit > 0,
        forall|r: int| 0 <= r < values.len() ==> values[r] == 0,
        well_formed(node),
        0 <= node.lo,
        node.hi <= values.len(),
        k <= node.children.len(),
    ensures
        emitted_by_children(values, unit, node, confidence, expected, k).len() == 0,
    decreases k,
{
    if k > 0 {
        lemma_no_mass_no_children_rows(values, unit, node, confidence, expected, (k - 1) as nat);
        lemma_well_formed_child(node, k - 1);
        lemma_no_mass_no_confidence(values, unit, node.children[k - 1]);
    }
}

/// Whether the values of a row do not grow from rank to rank.
pub open spec fn descends(confidence: Seq<u64>) -> bool {
    forall|a: int, b: int| 0 <= a <= b < confidence.len() ==> confidence[a] >= confidence[b]
}

/// Whether no value of any row grows from rank to rank.
pub open spec fn rows_descend(rows: Seq<RowView>) -> bool {
    forall|k: int| 0 <= k < rows.len() ==> descends((#[trigger] rows[k]).confidence)
}

/// The confidence of a node below another node is at most that of the node
/// above: more mass does not round to less.
pub proof fn lemma_confidence_below(values: Seq<u64>, unit: int, above: NodeView, below: NodeView)
    requires
        unit > 0,
        200 * total_mass(values) + unit <= u64::MAX,
        0 <= above.lo <= below.lo <= below.hi <= above.hi <= values.len(),
    ensures
        0 <= node_confidence(values, unit, below) <= node_confidence(values, unit, above) <= u64::MAX,
{
    lemma_mass_before_monotonic(values, above.lo, below.lo);
    lemma_mass_before_monotonic(values, below.lo, below.hi);
    lemma_mass_before_monotonic(values, below.hi, above.hi);
    lemma_mass_before_monotonic(values, above.hi, values.len() as int);
    let small = 200 * range_mass(values, below.lo, below.hi) + unit;
    let large = 200 * range_mass(values, above.lo, above.hi) + unit;
    assert(0 <= small / (2 * unit) <= large / (2 * unit) <= large) by (nonlinear_arith)
        requires
            0 <= small <= large,
            unit > 0,
    ;
}

/// A row that is collapsed behind values that do not grow, the last of
/// them not zero, has values that do not grow.
pub proof fn lemma_collapsed_row_descends(values: Seq<u64>, node: NodeView, confidence: Seq<u64>, expected: Seq<usize>)
    requires
        descends(confidence),
        confidence.len() > 0 ==> confidence.last() >= 1,
    ensures
        descends(collapsed_row(values, node, confidence, expected).confidence),
    decreases node,
{
    if node.node_type == NodeType::Inner && node.children.len() > 0 {
        let best = heaviest(values, node.children, node.children.len() as int);
        lemma_heaviest_in_range(values, node.children, node.children.len() as int);
        let child = node.children[best];
        let longer = confidence.push(COLLAPSED_CONFIDENCE);
        assert(descends(longer)) by {
            assert forall|a: int, b: int| 0 <= a <= b < longer.len() implies longer[a]
                >= longer[b] by {
                if b < confidence.len() {
                } else if a < confidence.len() {
                    assert(confidence[a] >= confidence[confidence.len() - 1]);
                }
            }
        }
        lemma_collapsed_row_descends(values, child, longer, expected.push((child.hi - child.lo) as usize));
    }
}

/// In every row that the subtree of a node gives, the values do not grow
/// from rank to rank.
pub proof fn lemma_emitted_rows_descend(
    values: Seq<u64>,
    unit: int,
    node: NodeView,
    confidence: Seq<u64>,
    expected: Seq<usize>,
)
    requires
        unit > 0,
        200 * total_mass(values) + unit <= u64::MAX,
        well_formed(node),
        0 <= node.lo,
        node.hi <= values.len(),
        descends(confidence),
        confidence.len() > 0 ==> confidence.last() >= 1 && confidence.last() >= node_confidence(
            values,
            unit,
            node,
        ),
    ensures
        rows_descend(emitted(values, unit, node, confidence, expected)),
    decreases node, 1nat, 0nat,
{
    lemma_children_rows_descend(values, unit, node, confidence, expected, node.children.len());
    lemma_collapsed_row_descends(values, node, confidence, expected);
    let below = emitted_by_children(values, unit, node, confidence, expected, node.children.len());
    let all = emitted(values, unit, node, confidence, expected);
    assert forall|k: int| 0 <= k < all.len() implies descends((#[trigger] all[k]).confidence) by {
        if k < below.len() {
            assert(all[k] == below[k]);
        }
    }
}

/// In every row that the first `k` children of a node give, the values do
/// not grow from rank to rank.
pub proof fn lemma_children_rows_descend(
    values: Seq<u64>,
    unit: int,
    node: NodeView,
    confidence: Seq<u64>,
    expected: Seq<usize>,
    k: nat,
)
    requires
        unit > 0,
        200 * total_mass(values) + unit <= u64::MAX,
        well_formed(node),
        0 <= node.lo,
        node.hi <= values.len(),
        descends(confidence),
        confidence.len() > 0 ==> confidence.last() >= 1 && confidence.last() >= node_confidence(
            values,
            unit,
            node,
        ),
    ensures
        rows_descend(emitted_by_children(values, unit, node, confidence, expected, k)),
    decreases node, 0nat, k,
{
    if k > 0 && k <= node.children.len() {
        lemma_children_rows_descend(values, unit, node, confidence, expected, (k - 1) as nat);
        let before = emitted_by_children(values, unit, node, confidence, expected, (k - 1) as nat);
        let child = node.children[k - 1];
        lemma_well_formed_child(node, k - 1);
        lemma_confidence_below(values, unit, node, child);
        let value = node_confidence(values, unit, child);
        if value != 0 {
            let longer = confidence.push(value as u64);
            let sizes = expected.push((child.hi - child.lo) as usize);
            assert(descends(longer)) by {
                assert forall|a: int, b: int| 0 <= a <= b < longer.len() implies longer[a]
                    >= longer[b] by {
                    if b < confidence.len() {
                    } else if a < confidence.len() {
                        assert(confidence[a] >= confidence[confidence.len() - 1]);
                    }
                }
            }
            lemma_emitted_rows_descend(values, unit, child, longer, sizes);
            let below = emitted(values, unit, child, longer, sizes);
            let all = emitted_by_children(values, unit, node, confidence, expected, k);
            assert forall|i: int| 0 <= i < all.len() implies descends((#[trigger] all[i]).confidence) by {
                if i < before.len() {
                    assert(all[i] == before[i]);
                } else if below.len() == 0 && child.node_type == NodeType::Taxon {
                    assert(all[i].confidence == longer);
                } else {
                    assert(all[i] == below[i - before.len()]);
                }
            }
        }
    }
}

/// The rows of an evaluation, in their rank, have values that do not grow
/// from rank to rank.
pub proof fn lemma_ranked_rows_descend(values: Seq<u64>, unit: int, root: NodeView)
    requires
        unit > 0,
        200 * total_mass(values) + unit <= u64::MAX,
        well_formed(root),
        0 <= root.lo,
        root.hi <= values.len(),
        emitted(values, unit, root, Seq::empty(), Seq::empty()).len() <= usize::MAX,
    ensures
        rows_descend(ranked(emitted(values, unit, root, Seq::empty(), Seq::empty()))),
{
    let rows = emitted(values, unit, root, Seq::empty(), Seq::empty());
    lemma_emitted_rows_descend(values, unit, root, Seq::empty(), Seq::empty());
    lemma_rank_leq_total(rows);
    lemma_sorted_order(rows.len(), rank_leq(rows));
    let order = sorted_order(rows.len(), rank_leq(rows));
    assert forall|k: int| 0 <= k < ranked(rows).len() implies descends(
        (#[trigger] ranked(rows)[k]).confidence,
    ) by {
        assert(ranked(rows)[k] == rows[order[k] as int]);
    }
}

/// Whether every row has as many confidence values as its lineage, a row
/// of `paths`, has ranks.
pub open spec fn rows_have_ranks(rows: Seq<RowView>, paths: Seq<Seq<Seq<char>>>) -> bool {
    forall|k: int|
        0 <= k < rows.len() ==> {
            &&& 0 <= (#[trigger] rows[k]).lineage_index < paths.len()
            &&& rows[k].confidence.len() == paths[rows[k].lineage_index].len()
        }
}

/// The row in which a node is collapsed ends at a taxon, and has a value
/// for each rank of the lineage that brought this taxon.
pub proof fn lemma_collapsed_row_has_ranks(
    values: Seq<u64>,
    node: NodeView,
    paths: Seq<Seq<Seq<char>>>,
    confidence: Seq<u64>,
    expected: Seq<usize>,
)
    requires
        well_formed(node),
        taxa_closed(node),
        taxa_at_depth(node, paths, confidence.len() as int),
        node.node_type != NodeType::Sequence,
    ensures
        0 <= collapsed_row(values, node, confidence, expected).lineage_index < paths.len(),
        collapsed_row(values, node, confidence, expected).confidence.len() == paths[collapsed_row(
            values,
            node,
            confidence,
            expected,
        ).lineage_index].len(),
    decreases node,
{
    if node.node_type == NodeType::Inner {
        let best = heaviest(values, node.children, node.children.len() as int);
        lemma_heaviest_in_range(values, node.children, node.children.len() as int);
        let child = node.children[best];
        lemma_well_formed_child(node, best);
        lemma_taxa_closed_child(node, best);
        lemma_taxa_at_depth_child(node, paths, confidence.len() as int, best);
        lemma_collapsed_row_has_ranks(
            values,
            child,
            paths,
            confidence.push(COLLAPSED_CONFIDENCE),
            expected.push((child.hi - child.lo) as usize),
        );
    }
}

/// Every row that the subtree of a node gives has a value for each rank of
/// its lineage.
pub proof fn lemma_emitted_rows_have_ranks(
    values: Seq<u64>,
    unit: int,
    node: NodeView,
    paths: Seq<Seq<Seq<char>>>,
    confidence: Seq<u64>,
    expected: Seq<usize>,
)
    requires
        well_formed(node),
        taxa_closed(node),
        taxa_at_depth(node, paths, confidence.len() as int),
    ensures
        rows_have_ranks(emitted(values, unit, node, confidence, expected), paths),
    decreases node, 1nat, 0nat,
{
    lemma_children_rows_have_ranks(values, unit, node, paths, confidence, expected, node.children.len());
    if node.node_type == NodeType::Inner {
        lemma_collapsed_row_has_ranks(values, node, paths, confidence, expected);
    }
    let below = emitted_by_children(values, unit, node, confidence, expected, node.children.len());
    let all = emitted(values, unit, node, confidence, expected);
    assert forall|k: int| 0 <= k < all.len() implies {
        &&& 0 <= (#[trigger] all[k]).lineage_index < paths.len()
        &&& all[k].confidence.len() == paths[all[k].lineage_index].len()
    } by {
        if k < below.len() {
            assert(all[k] == below[k]);
        }
    }
}

/// Every row that the first `k` children of a node give has a value for
/// each rank of its lineage.
pub proof fn lemma_children_rows_have_ranks(
    values: Seq<u64>,
    unit: int,
    node: NodeView,
    paths: Seq<Seq<Seq<char>>>,
    confidence: Seq<u64>,
    expected: Seq<usize>,
    k: nat,
)
    requires
        well_formed(node),
        taxa_closed(node),
        taxa_at_depth(node, paths, confidence.len() as int),
    ensures
        rows_have_ranks(emitted_by_children(values, unit, node, confidence, expected, k), paths),
    decreases node, 0nat, k,
{
    if k > 0 && k <= node.children.len() {
        lemma_children_rows_have_ranks(values, unit, node, paths, confidence, expected, (k - 1) as nat);
        let before = emitted_by_children(values, unit, node, confidence, expected, (k - 1) as nat);
        let child = node.children[k - 1];
        lemma_well_formed_child(node, k - 1);
        lemma_taxa_closed_child(node, k - 1);
        lemma_taxa_at_depth_child(node, paths, confidence.len() as int, k - 1);
        let value = node_confidence(values, unit, child);
        if value != 0 {
            let longer = confidence.push(value as u64);
            let sizes = expected.push((child.hi - child.lo) as usize);
            lemma_emitted_rows_have_ranks(values, unit, child, paths, longer, sizes);
            let below = emitted(values, unit, child, longer, sizes);
            let all = emitted_by_children(values, unit, node, confidence, expected, k);
            assert forall|i: int| 0 <= i < all.len() implies {
                &&& 0 <= (#[trigger] all[i]).lineage_index < paths.len()
                &&& all[i].confidence.len() == paths[all[i].lineage_index].len()
            } by {
                if i < before.len() {
                    assert(all[i] == before[i]);
                } else if below.len() == 0 && child.node_type == NodeType::Taxon {
                    assert(all[i].confidence == longer);
                } else {
                    assert(all[i] == below[i - before.len()]);
                }
            }
        }
    }
}

/// In an index whose parts fit one another every row of an evaluation,
/// whatever the mass of the references, has as many confidence values as
/// its lineage has ranks.
pub proof fn lemma_rows_have_the_ranks_of_their_lineage(tree: &Tree, values: Seq<u64>, unit: int)
    requires
        tree.well_formed(),
        tree.num_tips > 0,
        emitted(values, unit, tree.root@, Seq::empty(), Seq::empty()).len() <= usize::MAX,
    ensures
        rows_have_ranks(
            ranked(emitted(values, unit, tree.root@, Seq::empty(), Seq::empty())),
            paths_of(views(tree.lineages@)),
        ),
{
    let paths = paths_of(views(tree.lineages@));
    let rows = emitted(values, unit, tree.root@, Seq::empty(), Seq::empty());
    lemma_emitted_rows_have_ranks(values, unit, tree.root@, paths, Seq::empty(), Seq::empty());
    lemma_rank_leq_total(rows);
    lemma_sorted_order(rows.len(), rank_leq(rows));
    let order = sorted_order(rows.len(), rank_leq(rows));
    assert forall|k: int| 0 <= k < ranked(rows).len() implies {
        &&& 0 <= (#[trigger] ranked(rows)[k]).lineage_index < paths.len()
        &&& ranked(rows)[k].confidence.len() == paths[ranked(rows)[k].lineage_index].len()
    } by {
        assert(ranked(rows)[k] == rows[order[k] as int]);
    }
}

/// The children of a node give at least the rows that fewer of them give.
pub proof fn lemma_children_rows_grow(
    values: Seq<u64>,
    unit: int,
    node: NodeView,
    confidence: Seq<u64>,
    expected: Seq<usize>,
    fewer: nat,
    more: nat,
)
    requires
        fewer <= more <= node.children.len(),
    ensures
        emitted_by_children(values, unit, node, confidence, expected, fewer).len() <= emitted_by_children(
            values,
            unit,
            node,
            confidence,
            expected,
            more,
        ).len(),
    decreases more,
{
    if fewer < more {
        lemma_children_rows_grow(values, unit, node, confidence, expected, fewer, (more - 1) as nat);
    }
}

/// Whatever mass the references have: an inner node of a trie in which
/// sequence nodes hang under taxa only gives at least
/// one row.
pub proof fn lemma_inner_node_gives_a_row(
    values: Seq<u64>,
    unit: int,
    node: NodeView,
    confidence: Seq<u64>,
    expected: Seq<usize>,
)
    requires
        taxa_closed(node),
        node.node_type == NodeType::Inner,
    ensures
        emitted(values, unit, node, confidence, expected).len() > 0,
    decreases node,
{
    let count = node.children.len();
    if any_significant(values, unit, node, count as int) {
        let i = choose|i: int|
            0 <= i < count && node_confidence(values, unit, #[trigger] node.children[i]) != 0;
        let child = node.children[i];
        let value = node_confidence(values, unit, child);
        lemma_taxa_closed_child(node, i);
        if child.node_type == NodeType::Inner {
            lemma_inner_node_gives_a_row(
                values,
                unit,
                child,
                confidence.push(value as u64),
                expected.push((child.hi - child.lo) as usize),
            );
        }
        assert(emitted_by_children(values, unit, node, confidence, expected, (i + 1) as nat).len() > 0);
        lemma_children_rows_grow(values, unit, node, confidence, expected, (i + 1) as nat, count);
    }
}

/// One candidate lineage of a query.
#[derive(Debug, PartialEq, Eq)]
pub struct LineageRow {
    /// The reference id that names the lineage.
    pub lineage_index: usize,
    /// For each rank of the lineage its confidence in hundredths.
    pub confidence: Vec<u64>,
    /// For each rank of the lineage the number of references below it; the
    /// mass expected of the rank under uniform mass is this number divided
    /// by the number of all references.
    pub expected: Vec<usize>,
}

/// A candidate lineage as plain values.
pub struct RowView {
    pub lineage_index: int,
    pub confidence: Seq<u64>,
    pub expected: Seq<usize>,
}

impl View for LineageRow {
    type V = RowView;

    open spec fn view(&self) -> RowView {
        RowView {
            lineage_index: self.lineage_index as int,
            confidence: self.confidence@,
            expected: self.expected@,
        }
    }
}

/// The index of the heaviest among the first `k` of `children`, the last of
/// them where several are equally heavy.
pub open spec fn heaviest(values: Seq<u64>, children: Seq<NodeView>, k: int) -> int
    decreases k,
{
    if k <= 1 {
        0
    } else {
        let best = heaviest(values, children, k - 1);
        if range_mass(values, children[k - 1].lo, children[k - 1].hi) >= range_mass(
            values,
            children[best].lo,
            children[best].hi,
        ) {
            k - 1
        } else {
            best
        }
    }
}

/// The heaviest child is one of the children.
pub proof fn lemma_heaviest_in_range(values: Seq<u64>, children: Seq<NodeView>, k: int)
    requires
        1 <= k,
    ensures
        0 <= heaviest(values, children, k) < k,
    decreases k,
{
    if k > 1 {
        lemma_heaviest_in_range(values, children, k - 1);
    }
}

/// The row of an inner node none of whose children carries visible mass:
/// the walk goes down along the heaviest child as long as the node is an
/// inner node, gives every rank that it passes the confidence of a
/// collapsed rank,
/// and ends at the first node that is none.
pub open spec fn collapsed_row(values: Seq<u64>, node: NodeView, confidence: Seq<u64>, expected: Seq<usize>) -> RowView
    decreases node,
{
    if node.node_type == NodeType::Inner && node.children.len() > 0 {
        let best = heaviest(values, node.children, node.children.len() as int);
        proof {
            lemma_heaviest_in_range(values, node.children, node.children.len() as int);
        }
        let child = node.children[best];
        collapsed_row(
            values,
            child,
            confidence.push(COLLAPSED_CONFIDENCE),
            expected.push((child.hi - child.lo) as usize),
        )
    } else {
        RowView { lineage_index: node.lo, confidence, expected }
    }
}

/// Whether one of the first `k` children of `node` carries visible mass.
pub open spec fn any_significant(values: Seq<u64>, unit: int, node: NodeView, k: int) -> bool {
    exists|i: int| 0 <= i < k && node_confidence(values, unit, #[trigger] node.children[i]) != 0
}

/// The rows that the subtree of `node` gives, in the order in which they are
/// found, where `confidence` and `expected` hold the values of the ranks
/// from the root down to `node`.
///
/// The children are visited in order. A child whose confidence is zero is
/// passed over. Every other child gives the rows of its own subtree; if
/// these are none and the child is a taxon, it gives its own row. An inner
/// node none of whose children carried visible mass gives the one row in
/// which it is collapsed.
pub open spec fn emitted(
    values: Seq<u64>,
    unit: int,
    node: NodeView,
    confidence: Seq<u64>,
    expected: Seq<usize>,
) -> Seq<RowView>
    decreases node, 1nat, 0nat,
{
    let below = emitted_by_children(values, unit, node, confidence, expected, node.children.len());
    if node.node_type == NodeType::Inner && !any_significant(
        values,
        unit,
        node,
        node.children.len() as int,
    ) {
        below.push(collapsed_row(values, node, confidence, expected))
    } else {
        below
    }
}

/// The rows that the first `k` children of `node` give.
pub open spec fn emitted_by_children(
    values: Seq<u64>,
    unit: int,
    node: NodeView,
    confidence: Seq<u64>,
    expected: Seq<usize>,
    k: nat,
) -> Seq<RowView>
    decreases node, 0nat, k,
{
    if k == 0 || k > node.children.len() {
        Seq::empty()
    } else {
        let before = emitted_by_children(values, unit, node, confidence, expected, (k - 1) as nat);
        let child = node.children[k - 1];
        let value = node_confidence(values, unit, child);
        if value == 0 {
            before
        } else {
            let child_confidence = confidence.push(value as u64);
            let child_expected = expected.push((child.hi - child.lo) as usize);
            let below = emitted(values, unit, child, child_confidence, child_expected);
            if below.len() == 0 && child.node_type == NodeType::Taxon {
                before.push(
                    RowView {
                        lineage_index: child.lo,
                        confidence: child_confidence,
                        expected: child_expected,
                    },
                )
            } else {
                before + below
            }
        }
    }
}

/// Row `i` ranks at or before row `j`: its confidence values are the larger
/// ones in lexicographic order, or the two have the same values and `i` was
/// found first.
pub open spec fn rank_leq(rows: Seq<RowView>) -> spec_fn(usize, usize) -> bool {
    |i: usize, j: usize|
        lex_lt(numbers(rows[j as int].confidence), numbers(rows[i as int].confidence)) || (
        rows[i as int].confidence == rows[j as int].confidence && i <= j)
}

/// `rank_leq` is a total order of the rows.
pub proof fn lemma_rank_leq_total(rows: Seq<RowView>)
    ensures
        total_ordering(rank_leq(rows)),
{
    let leq = rank_leq(rows);
    assert forall|x: usize, y: usize| #[trigger] leq(x, y) && #[trigger] leq(y, x) implies x == y by {
        let (a, b) = (numbers(rows[x as int].confidence), numbers(rows[y as int].confidence));
        lemma_lex_lt_irreflexive(a);
        if lex_lt(a, b) {
            lemma_lex_lt_asymmetric(a, b);
        }
    }
    assert forall|x: usize, y: usize, z: usize| #[trigger] leq(x, y) && #[trigger] leq(y, z) implies leq(
        x,
        z,
    ) by {
        let (a, b, c) = (
            numbers(rows[x as int].confidence),
            numbers(rows[y as int].confidence),
            numbers(rows[z as int].confidence),
        );
        if lex_lt(c, b) && lex_lt(b, a) {
            lemma_lex_lt_transitive(c, b, a);
        }
    }
    assert forall|x: usize, y: usize| #[trigger] leq(x, y) || #[trigger] leq(y, x) by {
        let (a, b) = (numbers(rows[x as int].confidence), numbers(rows[y as int].confidence));
        lemma_lex_lt_total(a, b);
        if a == b {
            lemma_numbers_injective(rows[x as int].confidence, rows[y as int].confidence);
        }
    }
}

/// The rows in the order of their rank: by their confidence values in
/// descending lexicographic order, rows with the same values in the order
/// in which they were found.
pub open spec fn ranked(rows: Seq<RowView>) -> Seq<RowView> {
    Seq::new(rows.len(), |k: int| rows[sorted_order(rows.len(), rank_leq(rows))[k] as int])
}

/// The ranked rows are the rows that were found, each once, in descending
/// lexicographic order of their confidence values: no row has smaller
/// values than a row behind it.
pub proof fn lemma_ranked_descends(rows: Seq<RowView>)
    requires
        rows.len() <= usize::MAX,
    ensures
        ranked(rows).len() == rows.len(),
        ranked(rows).to_multiset() == rows.to_multiset(),
        forall|a: int, b: int|
            0 <= a < b < rows.len() ==> !lex_lt(
                numbers((#[trigger] ranked(rows)[a]).confidence),
                numbers((#[trigger] ranked(rows)[b]).confidence),
            ),
{
    let leq = rank_leq(rows);
    let order = sorted_order(rows.len(), leq);
    lemma_rank_leq_total(rows);
    lemma_sorted_order(rows.len(), leq);
    assert forall|a: int, b: int| 0 <= a < b < rows.len() implies !lex_lt(
        numbers((#[trigger] ranked(rows)[a]).confidence),
        numbers((#[trigger] ranked(rows)[b]).confidence),
    ) by {
        let (x, y) = (numbers(rows[order[a] as int].confidence), numbers(rows[order[b] as int].confidence));
        assert(leq(order[a], order[b]));
        lemma_lex_lt_irreflexive(x);
        if lex_lt(y, x) {
            lemma_lex_lt_asymmetric(y, x);
        }
    }
    crate::order::lemma_sorted_rows_are_the_rows(rows, leq);
}

/// The rows of a query as a table to sort.
pub struct RankKeys<'r> {
    pub rows: &'r Vec<LineageRow>,
}

impl<'r> Keys for RankKeys<'r> {
    open spec fn rows(&self) -> nat {
        self.rows@.len()
    }

    open spec fn leq(&self) -> spec_fn(usize, usize) -> bool {
        rank_leq(views(self.rows@))
    }

    proof fn lemma_total(&self) {
        lemma_rank_leq_total(views(self.rows@));
    }

    fn count(&self) -> (n: usize) {
        self.rows.len()
    }

    fn at_or_before(&self, i: usize, j: usize) -> (r: bool) {
        proof {
            let (a, b) = (numbers(self.rows@[i as int].confidence@), numbers(self.rows@[j as int].confidence@));
            lemma_lex_lt_total(a, b);
            lemma_lex_lt_irreflexive(a);
            if lex_lt(b, a) {
                lemma_lex_lt_asymmetric(b, a);
            }
            if a == b {
                lemma_numbers_injective(self.rows@[i as int].confidence@, self.rows@[j as int].confidence@);
            }
        }
        if lex_less_numbers(&self.rows[j].confidence, &self.rows[i].confidence) {
            true
        } else if lex_less_numbers(&self.rows[i].confidence, &self.rows[j].confidence) {
            false
        } else {
            i <= j
        }
    }
}

/// The rank from which on the local signal of a row is taken: the first rank,
/// looked for from `from` on, below which there are fewer than all
/// references, and the last rank where there is none.
pub open spec fn signal_start_from(expected: Seq<usize>, num_tips: int, from: int) -> int
    decreases expected.len() - from,
{
    if from >= expected.len() - 1 {
        if expected.len() == 0 {
            0
        } else {
            expected.len() - 1
        }
    } else if expected[from] < num_tips {
        from
    } else {
        signal_start_from(expected, num_tips, from + 1)
    }
}

/// The rank from which on the local signal of a row is taken: the first
/// rank at which the trie branches, that is, below which there are fewer
/// than all references; the last rank where the trie does not branch.
pub fn signal_start(row: &LineageRow, num_tips: usize) -> (start: usize)
    ensures
        start == signal_start_from(row.expected@, num_tips as int, 0),
        row.expected@.len() > 0 ==> start < row.expected@.len(),
{
    let n: usize = row.expected.len();
    if n == 0 {
        return 0;
    }
    let mut k: usize = 0;
    while k < n - 1 && row.expected[k] >= num_tips
        invariant
            n == row.expected@.len(),
            n > 0,
            k <= n - 1,
            signal_start_from(row.expected@, num_tips as int, 0) == signal_start_from(
                row.expected@,
                num_tips as int,
                k as int,
            ),
        decreases n - k,
    {
        k += 1;
    }
    k
}

/// Every row names a reference of an index of `num_tips` references and has
/// as many expected values as confidence values.
pub open spec fn rows_in_index(rows: Seq<RowView>, num_tips: int) -> bool {
    forall|k: int|
        0 <= k < rows.len() ==> 0 <= (#[trigger] rows[k]).lineage_index < num_tips
            && rows[k].confidence.len() == rows[k].expected.len()
}

/// A copy of a list of plain values.
pub fn copy_of<T: Copy>(list: &Vec<T>) -> (copy: Vec<T>)
    ensures
        copy@ == list@,
{
    let mut copy: Vec<T> = Vec::new();
    let mut i: usize = 0;
    while i < list.len()
        invariant
            i <= list@.len(),
            copy@ == list@.take(i as int),
        decreases list@.len() - i,
    {
        copy.push(list[i]);
        assert(list@.take(i + 1) =~= list@.take(i as int).push(list@[i as int]));
        i += 1;
    }
    assert(list@.take(list@.len() as int) =~= list@);
    copy
}

/// The evaluation of one query against a reference index.
pub struct Lineage<'a, 'b> {
    pub query_label: &'b String,
    pub tree: &'a Tree,
    pub confidence_values: Vec<u64>,
    pub confidence_prefix_sum: Vec<u64>,
    pub confidence_vectors: Vec<LineageRow>,
    pub rounding_factor: u64,
    pub unit: u64,
}

impl<'a, 'b> Lineage<'a, 'b> {
    /// The evaluation is set up for its index: there is mass for every
    /// reference, the running sums of the mass are in place, and the
    /// rounding stays within the machine's integers.
    pub open spec fn valid(&self) -> bool {
        &&& self.tree.well_formed()
        &&& self.confidence_values@.len() == self.tree.num_tips
        &&& self.unit > 0
        &&& self.rounding_factor == ROUNDING_FACTOR
        &&& 200 * total_mass(self.confidence_values@) + self.unit <= u64::MAX
        &&& self.confidence_prefix_sum@.len() == self.confidence_values@.len() + 1
        &&& forall|i: int|
            0 <= i <= self.confidence_values@.len() ==> (#[trigger] self.confidence_prefix_sum@[i])
                == mass_before(self.confidence_values@, i)
    }

    /// Whatever mass the references have: the mass of every node of the
    /// trie that has children is the mass of its children taken together,
    /// and the mass of the root is the mass of all references.
    pub proof fn lemma_mass_adds_up(&self, path: Seq<int>)
        requires
            self.valid(),
            node_at(self.tree.root@, path) is Some,
            node_at(self.tree.root@, path)->0.children.len() > 0,
        ensures
            range_mass(self.confidence_values@, self.tree.root@.lo, self.tree.root@.hi) == total_mass(
                self.confidence_values@,
            ),
            range_mass(
                self.confidence_values@,
                node_at(self.tree.root@, path)->0.lo,
                node_at(self.tree.root@, path)->0.hi,
            ) == children_mass(
                self.confidence_values@,
                node_at(self.tree.root@, path)->0.children,
                node_at(self.tree.root@, path)->0.children.len() as int,
            ),
    {
        if self.tree.num_tips > 0 {
            lemma_mass_is_sum_of_children(self.confidence_values@, self.tree.root@, path);
        } else {
            crate::tree::lemma_node_of_empty_root(path);
            assert(children_mass(self.confidence_values@, self.tree.root@.children, 0) == 0);
        }
    }

    /// Sets up the evaluation of a query: `confidence_values[r]` is the mass
    /// of reference `r`, and `unit` the mass of the probability one.
    pub fn new(query_label: &'b String, tree: &'a Tree, confidence_values: Vec<u64>, unit: u64) -> (lineage: Self)
        requires
            tree.well_formed(),
            confidence_values@.len() == tree.num_tips,
            unit > 0,
            200 * total_mass(confidence_values@) + unit <= u64::MAX,
        ensures
            lineage.valid(),
            lineage.query_label == query_label,
            lineage.tree == tree,
            lineage.confidence_values@ == confidence_values@,
            lineage.unit == unit,
            lineage.confidence_vectors@.len() == 0,
    {
        let n: usize = confidence_values.len();
        let mut confidence_prefix_sum: Vec<u64> = Vec::new();
        confidence_prefix_sum.push(0);
        let mut sum: u64 = 0;
        let mut i: usize = 0;
        while i < n
            invariant
                i <= n,
                n == confidence_values@.len(),
                200 * total_mass(confidence_values@) + unit <= u64::MAX,
                sum == mass_before(confidence_values@, i as int),
                confidence_prefix_sum@.len() == i + 1,
                forall|k: int|
                    0 <= k <= i ==> (#[trigger] confidence_prefix_sum@[k]) == mass_before(
                        confidence_values@,
                        k,
                    ),
            decreases n - i,
        {
            proof {
                lemma_mass_before_monotonic(confidence_values@, i + 1, n as int);
            }
            sum = sum + confidence_values[i];
            confidence_prefix_sum.push(sum);
            i += 1;
        }
        Lineage {
            query_label,
            tree,
            confidence_values,
            confidence_prefix_sum,
            confidence_vectors: Vec::new(),
            rounding_factor: ROUNDING_FACTOR,
            unit,
        }
    }

    /// Whether mass with this unit can be evaluated against an index of
    /// `num_tips` references: there is mass for every reference, the unit is
    /// not zero, and two hundred times the mass of all references, and the
    /// unit on top of it, are within the machine's integers.
    pub open spec fn can_evaluate(num_tips: int, confidence_values: Seq<u64>, unit: int) -> bool {
        &&& confidence_values.len() == num_tips
        &&& unit > 0
        &&& 200 * total_mass(confidence_values) + unit <= u64::MAX
    }

    /// Whether mass with this unit can be evaluated against an index.
    pub fn check_mass(tree: &Tree, confidence_values: &Vec<u64>, unit: u64) -> (ok: bool)
        ensures
            ok == Self::can_evaluate(tree.num_tips as int, confidence_values@, unit as int),
    {
        if confidence_values.len() != tree.num_tips || unit == 0 {
            return false;
        }
        let limit: u64 = (u64::MAX - unit) / 200;
        let n: usize = confidence_values.len();
        let mut sum: u64 = 0;
        let mut i: usize = 0;
        while i < n
            invariant
                i <= n,
                n == confidence_values@.len(),
                limit == (u64::MAX - unit) / 200,
                sum == mass_before(confidence_values@, i as int),
                sum <= limit,
            decreases n - i,
        {
            if confidence_values[i] > limit - sum {
                proof {
                    lemma_mass_before_monotonic(confidence_values@, i + 1, n as int);
                }
                return false;
            }
            sum = sum + confidence_values[i];
            i += 1;
        }
        true
    }

    /// The candidate lineages of a query, the best first, from the mass of
    /// the references; `None` where mass with this unit cannot be evaluated
    /// against the index. Every row has a confidence value for each rank of
    /// its lineage, and these values do not grow from rank to rank.
    pub fn rank(query_label: &'b String, tree: &'a Tree, confidence_values: Vec<u64>, unit: u64) -> (ranked_rows: Option<
        Vec<LineageRow>,
    >)
        requires
            tree.well_formed(),
        ensures
            ranked_rows is Some <==> Self::can_evaluate(
                tree.num_tips as int,
                confidence_values@,
                unit as int,
            ),
            ranked_rows matches Some(rows) ==> {
                &&& tree.num_tips == 0 ==> rows@.len() == 0
                &&& tree.num_tips > 0 ==> rows@.len() > 0 && views(rows@) == ranked(
                    emitted(confidence_values@, unit as int, tree.root@, Seq::empty(), Seq::empty()),
                )
                &&& rows_in_index(views(rows@), tree.num_tips as int)
                &&& rows_descend(views(rows@))
                &&& rows_have_ranks(views(rows@), paths_of(views(tree.lineages@)))
            },
    {
        if !Self::check_mass(tree, &confidence_values, unit) {
            return None;
        }
        let lineage = Lineage::new(query_label, tree, confidence_values, unit);
        Some(lineage.evaluate())
    }

    /// The mass of the references below a node.
    fn get_confidence(&self, node: &Node) -> (mass: u64)
        requires
            self.valid(),
            0 <= node@.lo <= node@.hi <= self.tree.num_tips,
        ensures
            mass == range_mass(self.confidence_values@, node@.lo, node@.hi),
            200 * mass + self.unit <= u64::MAX,
    {
        proof {
            lemma_node_view(node);
            lemma_mass_before_monotonic(self.confidence_values@, node@.lo, node@.hi);
            lemma_mass_before_monotonic(
                self.confidence_values@,
                node@.hi,
                self.confidence_values@.len() as int,
            );
        }
        self.confidence_prefix_sum[node.confidence_range.1] - self.confidence_prefix_sum[node.confidence_range.0]
    }

    /// The confidence of a node: its mass in rounded hundredths.
    fn rounded_confidence(&self, node: &Node) -> (value: u64)
        requires
            self.valid(),
            0 <= node@.lo <= node@.hi <= self.tree.num_tips,
        ensures
            value == node_confidence(self.confidence_values@, self.unit as int, node@),
    {
        let mass: u64 = self.get_confidence(node);
        let doubled: u128 = 2 * (self.rounding_factor as u128) * (mass as u128) + self.unit as u128;
        let value: u128 = doubled / (2 * (self.unit as u128));
        assert(value <= doubled) by (nonlinear_arith)
            requires
                value as int == (doubled as int) / (2 * (self.unit as int)),
                doubled >= 0,
                self.unit > 0,
        ;
        value as u64
    }

    /// The index of the heaviest child of a node, the last of them where
    /// several are equally heavy.
    fn heaviest_child(&self, node: &Node) -> (best: usize)
        requires
            self.valid(),
            well_formed(node@),
            node@.hi <= self.tree.num_tips,
            node@.children.len() > 0,
        ensures
            best == heaviest(self.confidence_values@, node@.children, node@.children.len() as int),
            best < node@.children.len(),
    {
        proof {
            lemma_node_view(node);
            lemma_well_formed_child(node@, 0);
        }
        let mut best: usize = 0;
        let mut best_mass: u64 = self.get_confidence(&node.children[0]);
        let mut k: usize = 1;
        while k < node.children.len()
            invariant
                self.valid(),
                well_formed(node@),
                node@.hi <= self.tree.num_tips,
                node@.children.len() == node.children@.len(),
                forall|i: int|
                    0 <= i < node.children@.len() ==> (#[trigger] node@.children[i])
                        == node.children@[i]@,
                1 <= k <= node.children@.len(),
                best < k,
                best == heaviest(self.confidence_values@, node@.children, k as int),
                best_mass == range_mass(
                    self.confidence_values@,
                    node@.children[best as int].lo,
                    node@.children[best as int].hi,
                ),
            decreases node.children@.len() - k,
        {
            let child = &node.children[k];
            assert(child@ == node@.children[k as int]);
            proof {
                lemma_well_formed_child(node@, k as int);
            }
            let mass: u64 = self.get_confidence(child);
            if mass >= best_mass {
                best = k;
                best_mass = mass;
            }
            k += 1;
        }
        best
    }

    /// The row in which an inner node without visible mass below it is
    /// collapsed.
    fn collapse(&self, node: &Node, confidence_prefix: &Vec<u64>, expected_prefix: &Vec<usize>) -> (row: LineageRow)
        requires
            self.valid(),
            well_formed(node@),
            node@.hi <= self.tree.num_tips,
            confidence_prefix@.len() == expected_prefix@.len(),
        ensures
            row@ == collapsed_row(
                self.confidence_values@,
                node@,
                confidence_prefix@,
                expected_prefix@,
            ),
            0 <= row@.lineage_index < self.tree.num_tips,
            row@.confidence.len() == row@.expected.len(),
    {
        let mut confidence: Vec<u64> = copy_of(confidence_prefix);
        let mut expected: Vec<usize> = copy_of(expected_prefix);
        let mut current: &Node = node;
        proof {
            lemma_node_view(current);
        }
        while self.tree.is_inner_taxon_node(current) && current.children.len() > 0
            invariant
                self.valid(),
                well_formed(current@),
                current@.hi <= self.tree.num_tips,
                current@.children.len() == current.children@.len(),
                current@.lo == current.confidence_range.0,
                confidence@.len() == expected@.len(),
                collapsed_row(self.confidence_values@, current@, confidence@, expected@)
                    == collapsed_row(
                    self.confidence_values@,
                    node@,
                    confidence_prefix@,
                    expected_prefix@,
                ),
            decreases current@,
        {
            proof {
                lemma_node_view(current);
            }
            let best: usize = self.heaviest_child(current);
            let child: &Node = &current.children[best];
            assert(child@ == current@.children[best as int]);
            proof {
                lemma_node_view(child);
                lemma_well_formed_child(current@, best as int);
            }
            confidence.push(COLLAPSED_CONFIDENCE);
            expected.push(child.confidence_range.1 - child.confidence_range.0);
            current = child;
        }
        LineageRow { lineage_index: current.confidence_range.0, confidence, expected }
    }

    /// Lists the rows of the subtree of `node` behind the rows that the
    /// evaluation holds, and tells whether there was one.
    fn eval_recurse(&mut self, node: &Node, confidence_prefix: &Vec<u64>, expected_prefix: &Vec<usize>) -> (pushed: bool)
        requires
            old(self).valid(),
            well_formed(node@),
            node@.hi <= old(self).tree.num_tips,
            confidence_prefix@.len() == expected_prefix@.len(),
            rows_in_index(views(old(self).confidence_vectors@), old(self).tree.num_tips as int),
        ensures
            final(self).valid(),
            final(self).tree == old(self).tree,
            final(self).query_label == old(self).query_label,
            final(self).confidence_values == old(self).confidence_values,
            final(self).unit == old(self).unit,
            views(final(self).confidence_vectors@) == views(old(self).confidence_vectors@) + emitted(
                old(self).confidence_values@,
                old(self).unit as int,
                node@,
                confidence_prefix@,
                expected_prefix@,
            ),
            pushed == (emitted(
                old(self).confidence_values@,
                old(self).unit as int,
                node@,
                confidence_prefix@,
                expected_prefix@,
            ).len() > 0),
            rows_in_index(views(final(self).confidence_vectors@), old(self).tree.num_tips as int),
        decreases node@,
    {
        let ghost values = self.confidence_values@;
        let ghost unit = self.unit as int;
        let ghost start = views(self.confidence_vectors@);
        let ghost num_tips = self.tree.num_tips as int;
        proof {
            lemma_node_view(node);
        }
        let mut no_child_significant: bool = true;
        let mut pushed_result: bool = false;
        let mut i: usize = 0;
        while i < node.children.len()
            invariant
                self.valid(),
                self.tree == old(self).tree,
                self.query_label == old(self).query_label,
                self.confidence_values == old(self).confidence_values,
                self.unit == old(self).unit,
                values == self.confidence_values@,
                unit == self.unit as int,
                num_tips == self.tree.num_tips as int,
                well_formed(node@),
                node@.hi <= num_tips,
                confidence_prefix@.len() == expected_prefix@.len(),
                node@.children.len() == node.children@.len(),
                forall|k: int|
                    0 <= k < node.children@.len() ==> (#[trigger] node@.children[k])
                        == node.children@[k]@,
                i <= node.children@.len(),
                views(self.confidence_vectors@) == start + emitted_by_children(
                    values,
                    unit,
                    node@,
                    confidence_prefix@,
                    expected_prefix@,
                    i as nat,
                ),
                no_child_significant == !any_significant(values, unit, node@, i as int),
                pushed_result == (emitted_by_children(
                    values,
                    unit,
                    node@,
                    confidence_prefix@,
                    expected_prefix@,
                    i as nat,
                ).len() > 0),
                rows_in_index(views(self.confidence_vectors@), num_tips),
            decreases node.children@.len() - i,
        {
            let c: &Node = &node.children[i];
            let ghost child = node@.children[i as int];
            assert(c@ == child);
            let ghost before = emitted_by_children(
                values,
                unit,
                node@,
                confidence_prefix@,
                expected_prefix@,
                i as nat,
            );
            proof {
                lemma_node_view(c);
                lemma_well_formed_child(node@, i as int);
            }
            let child_conf: u64 = self.rounded_confidence(c);
            proof {
                if any_significant(values, unit, node@, i + 1) {
                    let w = choose|w: int|
                        0 <= w < i + 1 && node_confidence(values, unit, #[trigger] node@.children[w])
                            != 0;
                    if w < i {
                        assert(any_significant(values, unit, node@, i as int));
                    }
                }
                if any_significant(values, unit, node@, i as int) {
                    let w = choose|w: int|
                        0 <= w < i && node_confidence(values, unit, #[trigger] node@.children[w]) != 0;
                    assert(0 <= w < i + 1 && node_confidence(values, unit, node@.children[w]) != 0);
                }
            }
            if child_conf == 0 {
                i += 1;
                continue;
            }
            proof {
                assert(0 <= i < i + 1 && node_confidence(values, unit, node@.children[i as int]) != 0);
            }
            no_child_significant = false;
            let mut conf_prefix: Vec<u64> = copy_of(confidence_prefix);
            let mut expected_conf_prefix: Vec<usize> = copy_of(expected_prefix);
            conf_prefix.push(child_conf);
            expected_conf_prefix.push(c.confidence_range.1 - c.confidence_range.0);
            let ghost rows_before = views(self.confidence_vectors@);
            let child_pushed_result: bool = self.eval_recurse(c, &conf_prefix, &expected_conf_prefix);
            let ghost below = emitted(values, unit, child, conf_prefix@, expected_conf_prefix@);
            if !child_pushed_result && self.tree.is_taxon_leaf(c) {
                let ghost held = self.confidence_vectors@;
                let row = LineageRow {
                    lineage_index: c.confidence_range.0,
                    confidence: conf_prefix,
                    expected: expected_conf_prefix,
                };
                self.confidence_vectors.push(row);
                proof {
                    lemma_views_push(held, row);
                    assert(below =~= Seq::<RowView>::empty());
                    assert(views(self.confidence_vectors@) =~= start + before.push(row@));
                }
                pushed_result = true;
            } else {
                proof {
                    assert(views(self.confidence_vectors@) =~= start + (before + below));
                }
            }
            pushed_result = pushed_result || child_pushed_result;
            i += 1;
        }
        if no_child_significant && self.tree.is_inner_taxon_node(node) {
            let row = self.collapse(node, confidence_prefix, expected_prefix);
            let ghost held = self.confidence_vectors@;
            let ghost below = emitted_by_children(
                values,
                unit,
                node@,
                confidence_prefix@,
                expected_prefix@,
                node@.children.len(),
            );
            self.confidence_vectors.push(row);
            proof {
                lemma_views_push(held, row);
                assert(views(self.confidence_vectors@) =~= start + below.push(row@));
            }
            pushed_result = true;
        }
        pushed_result
    }

    /// The candidate lineages of the query, the best first: the rows that
    /// the trie gives from its root, by their confidence values in
    /// descending lexicographic order, rows with the same values in the
    /// order in which they were found. An index without references gives no
    /// row. Every row has a confidence value for each rank of its lineage,
    /// and these values do not grow from rank to rank.
    pub fn evaluate(self) -> (rows: Vec<LineageRow>)
        requires
            self.valid(),
            self.confidence_vectors@.len() == 0,
        ensures
            self.tree.num_tips == 0 ==> rows@.len() == 0,
            self.tree.num_tips > 0 ==> rows@.len() > 0,
            self.tree.num_tips > 0 ==> views(rows@) == ranked(
                emitted(
                    self.confidence_values@,
                    self.unit as int,
                    self.tree.root@,
                    Seq::empty(),
                    Seq::empty(),
                ),
            ),
            rows_in_index(views(rows@), self.tree.num_tips as int),
            rows_descend(views(rows@)),
            rows_have_ranks(views(rows@), paths_of(views(self.tree.lineages@))),
    {
        let tree: &Tree = self.tree;
        if tree.num_tips == 0 {
            return Vec::new();
        }
        let ghost values = self.confidence_values@;
        let ghost unit = self.unit as int;
        let mut state = self;
        let no_confidence: Vec<u64> = Vec::new();
        let no_expected: Vec<usize> = Vec::new();
        assert(views(state.confidence_vectors@) =~= Seq::<RowView>::empty());
        state.eval_recurse(&tree.root, &no_confidence, &no_expected);
        let found: Vec<LineageRow> = state.confidence_vectors;
        let ghost found_rows = views(found@);
        assert(found_rows =~= emitted(values, unit, tree.root@, Seq::empty(), Seq::empty()));
        proof {
            lemma_inner_node_gives_a_row(values, unit, tree.root@, Seq::empty(), Seq::empty());
        }
        let keys = RankKeys { rows: &found };
        let order: Vec<usize> = sort_indices(&keys);
        proof {
            lemma_rank_leq_total(found_rows);
            lemma_sorted_order(found_rows.len(), rank_leq(found_rows));
        }
        let mut rows: Vec<LineageRow> = Vec::new();
        let mut k: usize = 0;
        while k < order.len()
            invariant
                k <= order@.len(),
                order@.len() == found@.len(),
                found_rows == views(found@),
                order@ == sorted_order(found_rows.len(), rank_leq(found_rows)),
                forall|a: int| 0 <= a < order@.len() ==> (#[trigger] order@[a]) < found@.len(),
                views(rows@) == ranked(found_rows).take(k as int),
                rows_in_index(found_rows, tree.num_tips as int),
                rows_in_index(views(rows@), tree.num_tips as int),
            decreases order@.len() - k,
        {
            let from: &LineageRow = &found[order[k]];
            let row = LineageRow {
                lineage_index: from.lineage_index,
                confidence: copy_of(&from.confidence),
                expected: copy_of(&from.expected),
            };
            assert(row@ == found_rows[order@[k as int] as int]);
            let ghost held = rows@;
            rows.push(row);
            proof {
                lemma_views_push(held, row);
                assert(ranked(found_rows).take(k + 1) =~= ranked(found_rows).take(k as int).push(
                    ranked(found_rows)[k as int],
                ));
            }
            k += 1;
        }
        assert(ranked(found_rows).take(k as int) =~= ranked(found_rows));
        assert(views(rows@).len() == rows@.len());
        proof {
            lemma_ranked_rows_descend(values, unit, tree.root@);
            lemma_rows_have_the_ranks_of_their_lineage(tree, values, unit);
        }
        rows
    }
}

} // verus!
