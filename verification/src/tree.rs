//! The reference index: the lineage trie, the posting lists of the 8-mers
//! and the map of exact sequences.

use crate::order::{lemma_sorted_order, sort_indices, sorted_order, Keys};
use crate::postings::{
    add_kmers, buckets_of, ids_below, ids_in_order, increasing_ids, posting_lists_of,
    record_sequence,
};
use crate::seqmap::{
    is_among, is_list_of, sequence_map_contents, sequence_map_new, sequence_map_values, SequenceMap,
};
use crate::text::{
    chars_of, code_points, decimal, lemma_code_points_injective, lemma_join_split, lemma_join_take,
    lemma_lex_lt_asymmetric, lemma_lex_lt_irreflexive, lemma_lex_lt_total, lemma_lex_lt_transitive,
    lemma_proper_start_is_less, lemma_split_on_len, lemma_views_push, lex_less, lex_lt, push_chars,
    push_decimal, push_str, split_chars, split_on, string_of, views,
};
use crate::trie::{
    children_cover, children_size, empty_root, fresh_node, holds_row, in_trie_order, insert_path,
    is_proper_start, lemma_range_is_sum_of_children, lemma_taxa_at_depth_child,
    lemma_taxa_closed_child, lemma_trie_of, lemma_trie_taxa_at_depth, lemma_trie_taxa_closed,
    lemma_well_formed_child, node_at, taxa_at_depth, taxa_closed, trie_of, well_formed, NodeType,
    NodeView,
};
use vstd::prelude::*;
use vstd::relations::total_ordering;

verus! {

/// A node of the lineage trie.
#[derive(Debug, PartialEq, Eq)]
pub struct Node {
    pub label: String,
    pub confidence_range: (usize, usize),
    pub children: Vec<Node>,
    pub node_type: NodeType,
}

impl View for Node {
    type V = NodeView;

    open spec fn view(&self) -> NodeView {
        node_view(*self)
    }
}

/// The mathematical tree that a node and the nodes below it stand for.
pub open spec fn node_view(node: Node) -> NodeView
    decreases node, 0nat,
{
    NodeView {
        label: node.label@,
        lo: node.confidence_range.0 as int,
        hi: node.confidence_range.1 as int,
        children: child_views(node.children@, node.children@.len()),
        node_type: node.node_type,
    }
}

/// The trees that the first `n` of `children` stand for.
pub open spec fn child_views(children: Seq<Node>, n: nat) -> Seq<NodeView>
    decreases children, n,
{
    if n == 0 || n > children.len() {
        Seq::empty()
    } else {
        child_views(children, (n - 1) as nat).push(node_view(children[n - 1]))
    }
}

/// The first `n` children, seen one by one.
pub proof fn lemma_child_views(children: Seq<Node>, n: nat)
    requires
        n <= children.len(),
    ensures
        child_views(children, n).len() == n,
        forall|i: int| 0 <= i < n ==> child_views(children, n)[i] == (#[trigger] children[i])@,
    decreases n,
{
    if n > 0 {
        lemma_child_views(children, (n - 1) as nat);
    }
}

/// The view of a node, field by field.
pub proof fn lemma_node_view(node: &Node)
    ensures
        node@.label == node.label@,
        node@.lo == node.confidence_range.0,
        node@.hi == node.confidence_range.1,
        node@.node_type == node.node_type,
        node@.children.len() == node.children@.len(),
        forall|i: int|
            0 <= i < node.children@.len() ==> node@.children[i] == (#[trigger] node.children@[i])@,
        forall|i: int|
            0 <= i < node.children@.len() ==> (#[trigger] node@.children[i]) == node.children@[i]@,
{
    lemma_child_views(node.children@, node.children@.len());
}

impl Node {
    /// A node without children that owns the one reference id
    /// `confidence_idx`.
    pub fn new(label: String, confidence_idx: usize, node_type: NodeType) -> (node: Node)
        requires
            confidence_idx < usize::MAX,
        ensures
            node@ == fresh_node(label@, confidence_idx as int, node_type),
    {
        let node = Node {
            label,
            confidence_range: (confidence_idx, confidence_idx + 1),
            children: Vec::new(),
            node_type,
        };
        assert(node@.children =~= Seq::empty());
        node
    }

    /// Appends a child behind the children that the node has.
    pub fn add_child(&mut self, child: Node)
        ensures
            final(self)@ == (NodeView { children: old(self)@.children.push(child@), ..old(self)@ }),
    {
        self.children.push(child);
        proof {
            lemma_node_view(self);
            lemma_node_view(old(self));
            assert(self@.children =~= old(self)@.children.push(child@));
        }
    }

    /// Whether the last child is an inner node or a taxon.
    fn last_child_is_no_sequence(&self) -> (open: bool)
        requires
            self@.children.len() > 0,
        ensures
            open == (self@.children.last().node_type != NodeType::Sequence),
    {
        proof {
            lemma_node_view(self);
            lemma_node_view(&self.children@[self.children@.len() - 1]);
        }
        match self.children[self.children.len() - 1].node_type {
            NodeType::Sequence => false,
            _ => true,
        }
    }

    /// The label of the last child, if there is a child.
    pub fn get_last_child_label(&self) -> (label: Option<&String>)
        ensures
            self@.children.len() == 0 ==> label is None,
            self@.children.len() > 0 ==> (label matches Some(l) && l@
                == self@.children.last().label),
    {
        let n: usize = self.children.len();
        proof {
            lemma_node_view(self);
        }
        if n == 0 {
            None
        } else {
            Some(&self.children[n - 1].label)
        }
    }
}

/// The line that shows a node in an outline of the trie: the indentation, the
/// label and the range of the node.
pub open spec fn outline_line(node: NodeView, indent: Seq<char>) -> Seq<char> {
    indent + node.label + seq![' ', '('] + decimal(node.lo as nat) + seq![',', ' '] + decimal(
        node.hi as nat,
    ) + seq![')']
}

/// The outline of the subtree of a node: the line of the node, and behind
/// it the outlines of its children, each indented by two more blanks.
pub open spec fn outline(node: NodeView, indent: Seq<char>) -> Seq<Seq<char>>
    decreases node, 1nat, 0nat,
{
    seq![outline_line(node, indent)] + outline_of_children(node, indent, node.children.len())
}

/// The outlines of the first `k` children of a node.
pub open spec fn outline_of_children(node: NodeView, indent: Seq<char>, k: nat) -> Seq<Seq<char>>
    decreases node, 0nat, k,
{
    if k == 0 || k > node.children.len() {
        Seq::empty()
    } else {
        outline_of_children(node, indent, (k - 1) as nat) + outline(
            node.children[k - 1],
            indent + seq![' ', ' '],
        )
    }
}

impl Node {
    /// Writes the outline of the subtree of the node behind the lines that
    /// are there.
    pub fn outline_onto(&self, indent: &Vec<char>, lines: &mut Vec<String>)
        ensures
            views(final(lines)@) == views(old(lines)@) + outline(self@, indent@),
        decreases self@,
    {
        proof {
            lemma_node_view(self);
        }
        let mut line: Vec<char> = Vec::new();
        push_chars(&mut line, indent);
        push_str(&mut line, self.label.as_str());
        line.push(' ');
        line.push('(');
        push_decimal(&mut line, self.confidence_range.0 as u64);
        line.push(',');
        line.push(' ');
        push_decimal(&mut line, self.confidence_range.1 as u64);
        line.push(')');
        assert(line@ =~= outline_line(self@, indent@));
        let text = string_of(&line, 0, line.len());
        assert(line@.subrange(0, line@.len() as int) =~= line@);
        let ghost start = views(lines@);
        let ghost held = lines@;
        lines.push(text);
        proof {
            lemma_views_push(held, text);
        }
        let mut deeper: Vec<char> = Vec::new();
        push_chars(&mut deeper, indent);
        deeper.push(' ');
        deeper.push(' ');
        assert(deeper@ =~= indent@ + seq![' ', ' ']);
        let mut i: usize = 0;
        while i < self.children.len()
            invariant
                i <= self.children@.len(),
                self@.children.len() == self.children@.len(),
                forall|k: int|
                    0 <= k < self.children@.len() ==> (#[trigger] self@.children[k])
                        == self.children@[k]@,
                deeper@ == indent@ + seq![' ', ' '],
                views(lines@) == start + seq![outline_line(self@, indent@)] + outline_of_children(
                    self@,
                    indent@,
                    i as nat,
                ),
            decreases self.children@.len() - i,
        {
            let child: &Node = &self.children[i];
            assert(child@ == self@.children[i as int]);
            child.outline_onto(&deeper, lines);
            proof {
                assert(views(lines@) =~= start + seq![outline_line(self@, indent@)]
                    + outline_of_children(self@, indent@, (i + 1) as nat));
            }
            i += 1;
        }
        proof {
            assert(views(lines@) =~= start + outline(self@, indent@));
        }
    }
}

/// Why a reference index cannot be built.
#[derive(Debug, PartialEq, Eq, Clone, Copy, Structural)]
pub enum TreeError {
    /// There are not as many sequences as lineages.
    LengthMismatch,
    /// There are more references than a 32-bit reference id can number.
    TooManySequences,
    /// A lineage has a rank with an empty label.
    EmptyLabel,
}

/// The reference index of a database.
#[derive(Debug, PartialEq, Eq)]
pub struct Tree {
    /// The root of the lineage trie.
    pub root: Node,
    /// The lineages in ascending order; the reference id of a row is its
    /// place in this list.
    pub lineages: Vec<String>,
    /// For each encoded sequence the references that carry exactly it.
    pub sequences: SequenceMap,
    /// For each of the `65536` keys the references whose sequence holds the
    /// pure 8-mer with this key.
    pub k_mer_map: Vec<Vec<u32>>,
    /// The number of references.
    pub num_tips: usize,
}

/// Whether one rank of a lineage has an empty label.
pub open spec fn has_empty_label(lineage: Seq<char>) -> bool {
    exists|level: int|
        0 <= level < split_on(lineage, ',').len() && (#[trigger] split_on(lineage, ',')[level]).len()
            == 0
}

/// Row `i` stands at or before row `j`: its lineage is the smaller one in
/// lexicographic order of code points, or the lineages are equal and `i` is
/// not the later row.
pub open spec fn row_leq(lineages: Seq<Seq<char>>) -> spec_fn(usize, usize) -> bool {
    |i: usize, j: usize|
        lex_lt(code_points(lineages[i as int]), code_points(lineages[j as int])) || (lineages[i as int]
            == lineages[j as int] && i <= j)
}

/// The rows of a database in the order of the index: in ascending order of
/// their lineages, rows of equal lineage in the order of the input.
pub open spec fn row_order(lineages: Seq<Seq<char>>) -> Seq<usize> {
    sorted_order(lineages.len(), row_leq(lineages))
}

/// `row_leq` is a total order of the rows.
pub proof fn lemma_row_leq_total(lineages: Seq<Seq<char>>)
    ensures
        total_ordering(row_leq(lineages)),
{
    let leq = row_leq(lineages);
    assert forall|x: usize, y: usize| #[trigger] leq(x, y) && #[trigger] leq(y, x) implies x == y by {
        let (a, b) = (code_points(lineages[x as int]), code_points(lineages[y as int]));
        lemma_lex_lt_irreflexive(a);
        if lex_lt(a, b) {
            lemma_lex_lt_asymmetric(a, b);
        }
    }
    assert forall|x: usize, y: usize, z: usize| #[trigger] leq(x, y) && #[trigger] leq(y, z) implies leq(
        x,
        z,
    ) by {
        let (a, b, c) = (
            code_points(lineages[x as int]),
            code_points(lineages[y as int]),
            code_points(lineages[z as int]),
        );
        if lex_lt(a, b) && lex_lt(b, c) {
            lemma_lex_lt_transitive(a, b, c);
        }
    }
    assert forall|x: usize, y: usize| #[trigger] leq(x, y) || #[trigger] leq(y, x) by {
        let (a, b) = (code_points(lineages[x as int]), code_points(lineages[y as int]));
        lemma_lex_lt_total(a, b);
        if a == b {
            lemma_code_points_injective(lineages[x as int], lineages[y as int]);
        }
    }
}

/// The lineages of a database, in the order of the index and split into
/// their ranks, are in an order in which the trie can be built: no lineage
/// consists of the first ranks of the lineage before it.
pub proof fn lemma_indexed_lineages_in_trie_order(lineages: Seq<Seq<char>>)
    requires
        lineages.len() <= usize::MAX,
    ensures
        in_trie_order(paths_of(indexed_lineages(lineages))),
{
    let sorted = indexed_lineages(lineages);
    let paths = paths_of(sorted);
    let order = row_order(lineages);
    lemma_row_leq_total(lineages);
    lemma_sorted_order(lineages.len(), row_leq(lineages));
    assert forall|q: int| 0 <= q < paths.len() implies (#[trigger] paths[q]).len() >= 1 by {
        lemma_split_on_len(sorted[q], ',');
    }
    assert forall|q: int, p: int| 0 <= p && q == p + 1 && q < paths.len() implies !is_proper_start(
        #[trigger] paths[q],
        #[trigger] paths[p],
    ) by {
        if is_proper_start(paths[q], paths[p]) {
            let earlier = sorted[p];
            let later = sorted[q];
            let comma = seq![','];
            lemma_join_split(earlier, ',');
            lemma_join_split(later, ',');
            lemma_join_take(paths[p], comma, paths[q].len() as int);
            lemma_proper_start_is_less(later, earlier);
            assert(row_leq(lineages)(order[p], order[q]));
            crate::text::lemma_lex_lt_irreflexive(code_points(later));
            if lex_lt(code_points(earlier), code_points(later)) {
                lemma_lex_lt_asymmetric(code_points(earlier), code_points(later));
            }
        }
    }
}

/// The lineages of a database stand in the index in ascending order: no
/// lineage comes before a lineage that stands before it.
pub proof fn lemma_indexed_lineages_ascend(lineages: Seq<Seq<char>>)
    requires
        lineages.len() <= usize::MAX,
    ensures
        indexed_lineages(lineages).len() == lineages.len(),
        indexed_lineages(lineages).to_multiset() == lineages.to_multiset(),
        forall|a: int, b: int|
            0 <= a < b < lineages.len() ==> !lex_lt(
                code_points(#[trigger] indexed_lineages(lineages)[b]),
                code_points(#[trigger] indexed_lineages(lineages)[a]),
            ),
{
    let leq = row_leq(lineages);
    let order = row_order(lineages);
    lemma_row_leq_total(lineages);
    lemma_sorted_order(lineages.len(), leq);
    assert forall|a: int, b: int| 0 <= a < b < lineages.len() implies !lex_lt(
        code_points(#[trigger] indexed_lineages(lineages)[b]),
        code_points(#[trigger] indexed_lineages(lineages)[a]),
    ) by {
        let (x, y) = (code_points(lineages[order[a] as int]), code_points(lineages[order[b] as int]));
        assert(leq(order[a], order[b]));
        lemma_lex_lt_irreflexive(x);
        if lex_lt(x, y) {
            lemma_lex_lt_asymmetric(x, y);
        }
    }
    crate::order::lemma_sorted_rows_are_the_rows(lineages, leq);
}

/// The trie of a database without rows has no node but its root.
pub proof fn lemma_node_of_empty_root(path: Seq<int>)
    requires
        node_at(empty_root(), path) is Some,
    ensures
        path.len() == 0,
        node_at(empty_root(), path) == Some(empty_root()),
    decreases path.len(),
{
    if path.len() > 0 {
        lemma_node_of_empty_root(path.drop_last());
    }
}

/// The lineages of a database as a table of rows to sort.
pub struct LineageKeys {
    pub lineages: Vec<Vec<char>>,
}

impl Keys for LineageKeys {
    open spec fn rows(&self) -> nat {
        self.lineages@.len()
    }

    open spec fn leq(&self) -> spec_fn(usize, usize) -> bool {
        row_leq(views(self.lineages@))
    }

    proof fn lemma_total(&self) {
        lemma_row_leq_total(views(self.lineages@));
    }

    fn count(&self) -> (n: usize) {
        self.lineages.len()
    }

    fn at_or_before(&self, i: usize, j: usize) -> (r: bool) {
        proof {
            let (a, b) = (code_points(self.lineages@[i as int]@), code_points(self.lineages@[j as int]@));
            lemma_lex_lt_total(a, b);
            lemma_lex_lt_irreflexive(a);
            if lex_lt(b, a) {
                lemma_lex_lt_asymmetric(b, a);
            }
            if a == b {
                lemma_code_points_injective(self.lineages@[i as int]@, self.lineages@[j as int]@);
            }
        }
        if lex_less(&self.lineages[i], &self.lineages[j]) {
            true
        } else if lex_less(&self.lineages[j], &self.lineages[i]) {
            false
        } else {
            i <= j
        }
    }
}

/// The table of the lineages of a database, each lineage as its
/// characters.
pub fn lineage_keys(lineages: &Vec<String>) -> (keys: LineageKeys)
    ensures
        views(keys.lineages@) == views(lineages@),
{
    let ghost ls = views(lineages@);
    let mut keys: Vec<Vec<char>> = Vec::new();
    let mut i: usize = 0;
    while i < lineages.len()
        invariant
            i <= lineages@.len(),
            ls == views(lineages@),
            views(keys@) == ls.take(i as int),
        decreases lineages@.len() - i,
    {
        let chars = chars_of(lineages[i].as_str());
        let ghost done = keys@;
        keys.push(chars);
        proof {
            lemma_views_push(done, chars);
            assert(ls.take(i + 1) =~= ls.take(i as int).push(ls[i as int]));
        }
        i += 1;
    }
    assert(views(keys@) == ls) by {
        assert(ls.take(lineages@.len() as int) =~= ls);
    }
    LineageKeys { lineages: keys }
}

/// The rows of a database in the order of the index: `order[r]` is the row
/// of the input that becomes reference `r`.
pub fn index_order(lineages: &Vec<String>) -> (order: Vec<usize>)
    ensures
        order@ == row_order(views(lineages@)),
{
    let keys = lineage_keys(lineages);
    sort_indices(&keys)
}

/// The lineages of a database in the order of the index.
pub open spec fn indexed_lineages(lineages: Seq<Seq<char>>) -> Seq<Seq<char>> {
    Seq::new(lineages.len(), |r: int| lineages[row_order(lineages)[r] as int])
}

/// The sequences of a database in the order of the index.
pub open spec fn indexed_sequences(lineages: Seq<Seq<char>>, sequences: Seq<Seq<u8>>) -> Seq<Seq<u8>> {
    Seq::new(lineages.len(), |r: int| sequences[row_order(lineages)[r] as int])
}

/// The lineages, each split into the labels of its ranks.
pub open spec fn paths_of(lineages: Seq<Seq<char>>) -> Seq<Seq<Seq<char>>> {
    Seq::new(lineages.len(), |r: int| split_on(lineages[r], ','))
}

/// Installs the ranks `tokens[level..]` of reference `idx` below `node`.
fn insert_row(node: &mut Node, tokens: &Vec<String>, level: usize, idx: usize)
    requires
        level <= tokens@.len(),
        idx < usize::MAX,
    ensures
        final(node)@ == insert_path(old(node)@, views(tokens@), level as int, idx as int),
    decreases tokens@.len() - level,
{
    proof {
        lemma_node_view(node);
    }
    let ghost before = node@;
    node.confidence_range.1 = idx + 1;
    proof {
        lemma_node_view(node);
        assert(node@.children =~= before.children);
    }
    if level == tokens.len() {
        let stub = Node::new(node.label.clone(), idx, NodeType::Sequence);
        node.add_child(stub);
    } else {
        let reuse: bool = match node.get_last_child_label() {
            Some(name) => *name == tokens[level] && node.last_child_is_no_sequence(),
            None => false,
        };
        let mut child: Node = if reuse {
            let ghost whole = node@;
            let last = node.children.pop().unwrap();
            proof {
                lemma_node_view(node);
                assert(node@.children =~= whole.children.drop_last());
                assert(last@ == whole.children.last());
            }
            last
        } else if level + 1 == tokens.len() {
            Node::new(tokens[level].clone(), idx, NodeType::Taxon)
        } else {
            Node::new(tokens[level].clone(), idx, NodeType::Inner)
        };
        insert_row(&mut child, tokens, level + 1, idx);
        node.add_child(child);
    }
}

/// The labels of the ranks of a lineage, or `None` where one of them is
/// empty.
fn ranks_of(lineage: &Vec<char>) -> (ranks: Option<Vec<String>>)
    ensures
        ranks matches Some(tokens) ==> views(tokens@) == split_on(lineage@, ',') && !has_empty_label(
            lineage@,
        ),
        ranks is None ==> has_empty_label(lineage@),
{
    let parts = split_chars(lineage, ',');
    let ghost labels = split_on(lineage@, ',');
    let mut tokens: Vec<String> = Vec::new();
    let mut i: usize = 0;
    while i < parts.len()
        invariant
            i <= parts@.len(),
            views(parts@) == labels,
            labels == split_on(lineage@, ','),
            views(tokens@) == labels.take(i as int),
            forall|level: int| 0 <= level < i ==> (#[trigger] labels[level]).len() > 0,
        decreases parts@.len() - i,
    {
        let part = &parts[i];
        assert(labels[i as int] == part@);
        if part.len() == 0 {
            return None;
        }
        let token = string_of(part, 0, part.len());
        assert(token@ == part@) by {
            assert(part@.subrange(0, part@.len() as int) =~= part@);
        }
        let ghost done = tokens@;
        tokens.push(token);
        proof {
            lemma_views_push(done, token);
            assert(labels.take(i + 1) =~= labels.take(i as int).push(labels[i as int]));
        }
        i += 1;
    }
    assert(labels.take(i as int) =~= labels);
    Some(tokens)
}

/// Whether the ranges in the subtree of a node are in order.
pub fn ranges_in_order(node: &Node) -> (ok: bool)
    ensures
        ok == well_formed(node@),
    decreases node@,
{
    proof {
        lemma_node_view(node);
    }
    let (lo, hi) = node.confidence_range;
    if lo >= hi {
        return false;
    }
    let count: usize = node.children.len();
    let mut i: usize = 0;
    while i < count
        invariant
            i <= count,
            count == node.children@.len(),
            node@.children.len() == count,
            lo == node@.lo,
            hi == node@.hi,
            forall|k: int| 0 <= k < count ==> (#[trigger] node@.children[k]) == node.children@[k]@,
            forall|k: int|
                0 <= k < i ==> {
                    &&& well_formed(#[trigger] node@.children[k])
                    &&& node@.lo <= node@.children[k].lo
                    &&& node@.children[k].hi <= node@.hi
                },
        decreases count - i,
    {
        let child: &Node = &node.children[i];
        assert(child@ == node@.children[i as int]);
        proof {
            lemma_node_view(child);
        }
        if !ranges_in_order(child) || child.confidence_range.0 < lo || child.confidence_range.1 > hi {
            proof {
                if well_formed(node@) {
                    lemma_well_formed_child(node@, i as int);
                }
            }
            return false;
        }
        i += 1;
    }
    match node.node_type {
        NodeType::Sequence => count == 0,
        _ => {
            if count == 0 {
                return false;
            }
            proof {
                lemma_node_view(&node.children[0]);
                lemma_node_view(&node.children[count - 1]);
                assert(node.children@[0]@ == node@.children[0]);
                assert(node.children@[count - 1]@ == node@.children[count - 1]);
            }
            if node.children[0].confidence_range.0 != lo || node.children[count - 1].confidence_range.1 != hi {
                return false;
            }
            let mut j: usize = 1;
            while j < count
                invariant
                    1 <= j <= count,
                    count == node.children@.len(),
                    node@.children.len() == count,
                    node@.node_type != NodeType::Sequence,
                    forall|k: int| 0 <= k < count ==> (#[trigger] node@.children[k]) == node.children@[k]@,
                    forall|a: int, b: int|
                        0 <= a && b == a + 1 && b < j ==> (#[trigger] node@.children[a]).hi == (
                        #[trigger] node@.children[b]).lo,
                decreases count - j,
            {
                proof {
                    lemma_node_view(&node.children[j - 1]);
                    lemma_node_view(&node.children[j as int]);
                    assert(node.children@[j - 1]@ == node@.children[j - 1]);
                    assert(node.children@[j as int]@ == node@.children[j as int]);
                }
                if node.children[j - 1].confidence_range.1 != node.children[j].confidence_range.0 {
                    proof {
                        if well_formed(node@) {
                            assert(children_cover(node@));
                            assert(node@.children[j - 1].hi == node@.children[j as int].lo);
                        }
                    }
                    return false;
                }
                j += 1;
            }
            assert(children_cover(node@));
            true
        },
    }
}

/// Whether no inner node in the subtree of a node has a sequence node as
/// its child.
pub fn taxa_are_closed(node: &Node) -> (ok: bool)
    ensures
        ok == taxa_closed(node@),
    decreases node@,
{
    proof {
        lemma_node_view(node);
    }
    let inner: bool = match node.node_type {
        NodeType::Inner => true,
        _ => false,
    };
    let count: usize = node.children.len();
    let mut i: usize = 0;
    while i < count
        invariant
            i <= count,
            count == node.children@.len(),
            node@.children.len() == count,
            inner == (node@.node_type == NodeType::Inner),
            forall|k: int| 0 <= k < count ==> (#[trigger] node@.children[k]) == node.children@[k]@,
            forall|k: int|
                0 <= k < i ==> {
                    &&& taxa_closed(#[trigger] node@.children[k])
                    &&& node@.node_type == NodeType::Inner ==> node@.children[k].node_type
                        != NodeType::Sequence
                },
        decreases count - i,
    {
        let child: &Node = &node.children[i];
        assert(child@ == node@.children[i as int]);
        proof {
            lemma_node_view(child);
        }
        let is_sequence: bool = match child.node_type {
            NodeType::Sequence => true,
            _ => false,
        };
        if !taxa_are_closed(child) || (inner && is_sequence) {
            proof {
                if taxa_closed(node@) {
                    lemma_taxa_closed_child(node@, i as int);
                }
            }
            return false;
        }
        i += 1;
    }
    true
}

/// Whether every taxon in the subtree of a node starts its range with a
/// lineage that has as many ranks as the taxon is deep. The node stands
/// `level` ranks below the root; `depth` is this number where a `usize`
/// holds it.
fn taxa_stand_at_depth(node: &Node, lineages: &Vec<String>, depth: Option<usize>, Ghost(level): Ghost<int>) -> (ok:
    bool)
    requires
        depth matches Some(d) ==> d == level,
        depth is None ==> level > usize::MAX,
    ensures
        ok == taxa_at_depth(node@, paths_of(views(lineages@)), level),
    decreases node@,
{
    proof {
        lemma_node_view(node);
    }
    let ghost paths = paths_of(views(lineages@));
    let is_taxon: bool = match node.node_type {
        NodeType::Taxon => true,
        _ => false,
    };
    if is_taxon {
        let lo: usize = node.confidence_range.0;
        if lo >= lineages.len() {
            return false;
        }
        let chars = chars_of(lineages[lo].as_str());
        let ranks = split_chars(&chars, ',');
        proof {
            assert(views(ranks@).len() == ranks@.len());
            assert(views(lineages@)[lo as int] == lineages@[lo as int]@);
            assert(paths[lo as int] == split_on(lineages@[lo as int]@, ','));
            assert(paths[node@.lo].len() == ranks@.len());
        }
        let found: usize = ranks.len();
        match depth {
            Some(d) => {
                if found != d {
                    return false;
                }
            },
            None => {
                assert(paths[node@.lo].len() < level);
                return false;
            },
        }
    }
    let below: Option<usize> = match depth {
        Some(d) => if d < usize::MAX {
            Some(d + 1)
        } else {
            None
        },
        None => None,
    };
    let count: usize = node.children.len();
    let mut i: usize = 0;
    while i < count
        invariant
            i <= count,
            count == node.children@.len(),
            node@.children.len() == count,
            paths == paths_of(views(lineages@)),
            below matches Some(d) ==> d == level + 1,
            below is None ==> level + 1 > usize::MAX,
            node@.node_type == NodeType::Taxon ==> 0 <= node@.lo < paths.len() && paths[node@.lo].len()
                == level,
            forall|k: int| 0 <= k < count ==> (#[trigger] node@.children[k]) == node.children@[k]@,
            forall|k: int| 0 <= k < i ==> taxa_at_depth(#[trigger] node@.children[k], paths, level + 1),
        decreases count - i,
    {
        let child: &Node = &node.children[i];
        assert(child@ == node@.children[i as int]);
        if !taxa_stand_at_depth(child, lineages, below, Ghost(level + 1)) {
            proof {
                if taxa_at_depth(node@, paths, level) {
                    lemma_taxa_at_depth_child(node@, paths, level, i as int);
                }
            }
            return false;
        }
        i += 1;
    }
    true
}

impl TreeError {
    /// What the error says.
    pub open spec fn message_of(self) -> Seq<char> {
        match self {
            TreeError::LengthMismatch => "Number of sequences does not match number of labels"@,
            TreeError::TooManySequences => "Too many database sequences to run with 32-bit indices!"@,
            TreeError::EmptyLabel => "A lineage has a rank with an empty label"@,
        }
    }

    /// What the error says.
    pub fn message(&self) -> (text: String)
        ensures
            text@ == self.message_of(),
    {
        match self {
            TreeError::LengthMismatch => String::from_str(
                "Number of sequences does not match number of labels",
            ),
            TreeError::TooManySequences => String::from_str(
                "Too many database sequences to run with 32-bit indices!",
            ),
            TreeError::EmptyLabel => String::from_str("A lineage has a rank with an empty label"),
        }
    }
}

/// What building the index of a database gives: the reason why there is no
/// index where there are not as many sequences as lineages, where there are
/// more references than a 32-bit id can number, or where a lineage has a
/// rank with an empty label, in this order; and else the index of exactly
/// this database, which is well formed.
pub open spec fn is_built_from(
    built: Result<Tree, TreeError>,
    lineages: Seq<Seq<char>>,
    sequences: Seq<Seq<u8>>,
) -> bool {
    if lineages.len() != sequences.len() {
        built == Err::<Tree, TreeError>(TreeError::LengthMismatch)
    } else if lineages.len() > u32::MAX {
        built == Err::<Tree, TreeError>(TreeError::TooManySequences)
    } else if exists|i: int| 0 <= i < lineages.len() && has_empty_label(#[trigger] lineages[i]) {
        built == Err::<Tree, TreeError>(TreeError::EmptyLabel)
    } else {
        built matches Ok(tree) && tree.is_index_of(lineages, sequences) && tree.well_formed()
    }
}

impl Tree {
    /// Whether the parts of the index fit one another. An index that was
    /// built by `new` does; one that comes from elsewhere is to be checked
    /// before it is used.
    pub fn check(&self) -> (ok: bool)
        ensures
            ok == self.well_formed(),
    {
        let n: usize = self.num_tips;
        if n != self.lineages.len() || n > u32::MAX as usize || self.k_mer_map.len() != 65536 {
            return false;
        }
        let mut key: usize = 0;
        while key < 65536
            invariant
                key <= 65536,
                n == self.num_tips,
                self.k_mer_map@.len() == 65536,
                forall|c: int| 0 <= c < key ==> increasing_ids(#[trigger] self.k_mer_map@[c]@),
                forall|c: int, a: int|
                    0 <= c < key && 0 <= a < self.k_mer_map@[c]@.len() ==> (
                    #[trigger] self.k_mer_map@[c]@[a]) < n,
            decreases 65536 - key,
        {
            if !ids_in_order(&self.k_mer_map[key], n) {
                proof {
                    if self.well_formed() {
                        assert(increasing_ids(self.k_mer_map@[key as int]@));
                        assert forall|a: int| 0 <= a < self.k_mer_map@[key as int]@.len() implies (
                        #[trigger] self.k_mer_map@[key as int]@[a]) < n by {}
                    }
                }
                return false;
            }
            key += 1;
        }
        let ghost map = sequence_map_contents(self.sequences);
        let lists = sequence_map_values(&self.sequences);
        let mut i: usize = 0;
        while i < lists.len()
            invariant
                i <= lists@.len(),
                n == self.num_tips,
                map == sequence_map_contents(self.sequences),
                forall|k: int| 0 <= k < lists@.len() ==> is_list_of(map, (#[trigger] lists@[k])@),
                forall|k: int| 0 <= k < i ==> ids_below((#[trigger] lists@[k])@, n as int),
            decreases lists@.len() - i,
        {
            if !ids_in_order(&lists[i], n) {
                proof {
                    assert(is_list_of(map, lists@[i as int]@));
                    let key = choose|key: Seq<u8>| #[trigger]
                        map.contains_key(key) && map[key] == lists@[i as int]@;
                    if self.well_formed() {
                        assert(increasing_ids(map[key]));
                        assert forall|a: int| 0 <= a < map[key].len() implies (#[trigger] map[key][a])
                            < n by {}
                    }
                }
                return false;
            }
            i += 1;
        }
        proof {
            assert forall|s: Seq<u8>| #[trigger] map.contains_key(s) implies increasing_ids(map[s]) by {
                assert(is_among(lists@, map[s]));
                let k = choose|k: int| 0 <= k < lists@.len() && (#[trigger] lists@[k])@ == map[s];
                assert(ids_below(lists@[k]@, n as int));
            }
            assert forall|s: Seq<u8>, a: int| map.contains_key(s) && 0 <= a < map[s].len() implies (
            #[trigger] map[s][a]) < n by {
                assert(is_among(lists@, map[s]));
                let k = choose|k: int| 0 <= k < lists@.len() && (#[trigger] lists@[k])@ == map[s];
                assert(ids_below(lists@[k]@, n as int));
            }
            lemma_node_view(&self.root);
        }
        let inner: bool = match self.root.node_type {
            NodeType::Inner => true,
            _ => false,
        };
        if self.root.confidence_range.0 != 0 || self.root.confidence_range.1 != n || !inner {
            return false;
        }
        if n == 0 {
            let root_label = String::from_str("root");
            proof {
                reveal_strlit("root");
                assert(root_label@ =~= empty_root().label);
            }
            if self.root.children.len() != 0 || self.root.label != root_label {
                return false;
            }
            proof {
                assert(self.root@.children =~= empty_root().children);
                assert(taxa_closed(self.root@));
                assert(taxa_at_depth(self.root@, paths_of(views(self.lineages@)), 0));
            }
            true
        } else {
            ranges_in_order(&self.root) && taxa_are_closed(&self.root) && taxa_stand_at_depth(
                &self.root,
                &self.lineages,
                Some(0),
                Ghost(0),
            )
        }
    }

    /// The index holds the database of the given lineages and sequences:
    /// the rows are numbered in ascending order of their lineages, rows of
    /// equal lineage in the order of the input; the trie, the posting lists
    /// and the map of exact sequences are those of the rows so numbered.
    pub open spec fn is_index_of(&self, lineages: Seq<Seq<char>>, sequences: Seq<Seq<u8>>) -> bool {
        &&& self.num_tips == lineages.len()
        &&& views(self.lineages@) == indexed_lineages(lineages)
        &&& self.root@ == trie_of(paths_of(indexed_lineages(lineages)))
        &&& posting_lists_of(self.k_mer_map@, indexed_sequences(lineages, sequences))
        &&& buckets_of(
            sequence_map_contents(self.sequences),
            indexed_sequences(lineages, sequences),
        )
    }

    /// The parts of the index fit one another: there is a lineage for every
    /// reference id, every id in a posting list or under an exact sequence
    /// is the id of a reference, these lists ascend strictly, the ranges in
    /// the trie are in order with the root owning all ids, no inner node of
    /// the trie has a sequence node as its child, and every taxon stands as
    /// deep as the lineage of its first reference has ranks.
    pub open spec fn well_formed(&self) -> bool {
        &&& self.num_tips == self.lineages@.len()
        &&& self.num_tips <= u32::MAX
        &&& self.k_mer_map@.len() == 65536
        &&& forall|key: int| 0 <= key < 65536 ==> increasing_ids(#[trigger] self.k_mer_map@[key]@)
        &&& forall|key: int, a: int|
            0 <= key < 65536 && 0 <= a < self.k_mer_map@[key]@.len() ==> (
            #[trigger] self.k_mer_map@[key]@[a]) < self.num_tips
        &&& forall|s: Seq<u8>| #[trigger]
            sequence_map_contents(self.sequences).contains_key(s) ==> increasing_ids(
                sequence_map_contents(self.sequences)[s],
            )
        &&& forall|s: Seq<u8>, a: int|
            sequence_map_contents(self.sequences).contains_key(s) && 0 <= a < sequence_map_contents(
                self.sequences,
            )[s].len() ==> (#[trigger] sequence_map_contents(self.sequences)[s][a]) < self.num_tips
        &&& self.root@.lo == 0
        &&& self.root@.hi == self.num_tips
        &&& self.root@.node_type == NodeType::Inner
        &&& self.num_tips == 0 ==> self.root@ == empty_root()
        &&& self.num_tips > 0 ==> well_formed(self.root@)
        &&& taxa_closed(self.root@)
        &&& taxa_at_depth(self.root@, paths_of(views(self.lineages@)), 0)
    }

    /// An index of a database is well formed.
    pub proof fn lemma_index_well_formed(&self, lineages: Seq<Seq<char>>, sequences: Seq<Seq<u8>>)
        requires
            self.is_index_of(lineages, sequences),
            lineages.len() <= u32::MAX,
        ensures
            self.well_formed(),
    {
        let rows = indexed_sequences(lineages, sequences);
        let map = sequence_map_contents(self.sequences);
        lemma_trie_of(paths_of(indexed_lineages(lineages)));
        lemma_indexed_lineages_in_trie_order(lineages);
        lemma_trie_taxa_closed(paths_of(indexed_lineages(lineages)));
        lemma_trie_taxa_at_depth(paths_of(indexed_lineages(lineages)));
        assert(views(self.lineages@).len() == self.lineages@.len());
        assert forall|key: int, a: int|
            0 <= key < 65536 && 0 <= a < self.k_mer_map@[key]@.len() implies (
        #[trigger] self.k_mer_map@[key]@[a]) < self.num_tips by {
            assert(self.k_mer_map@[key]@.contains(self.k_mer_map@[key]@[a]));
        }
        assert forall|s: Seq<u8>, a: int|
            map.contains_key(s) && 0 <= a < map[s].len() implies (#[trigger] map[s][a])
            < self.num_tips by {
            assert(map[s].contains(map[s][a]));
        }
    }

    /// In the index of a database the ranks of the lineage of every
    /// reference lead from the root of the trie, label by label, to a taxon
    /// that holds the sequence node of the reference.
    pub proof fn lemma_lineage_leads_to_its_taxon(
        &self,
        lineages: Seq<Seq<char>>,
        sequences: Seq<Seq<u8>>,
        r: int,
    )
        requires
            self.is_index_of(lineages, sequences),
            lineages.len() <= usize::MAX,
            0 <= r < self.num_tips,
        ensures
            holds_row(self.root@, split_on(self.lineages@[r]@, ','), 0, r),
    {
        let paths = paths_of(indexed_lineages(lineages));
        lemma_indexed_lineages_in_trie_order(lineages);
        lemma_trie_taxa_closed(paths);
        assert(paths[r] == split_on(indexed_lineages(lineages)[r], ','));
        assert(views(self.lineages@)[r] == self.lineages@[r]@);
    }

    /// In a well-formed index the root of the trie owns all reference ids,
    /// and every node that has children owns as many ids as its children own
    /// together. The nodes without children are the sequence nodes, each of
    /// which owns the id of its reference.
    pub proof fn lemma_ranges_add_up(&self, path: Seq<int>)
        requires
            self.well_formed(),
            node_at(self.root@, path) is Some,
            node_at(self.root@, path)->0.children.len() > 0,
        ensures
            self.root@.lo == 0,
            self.root@.hi == self.num_tips,
            node_at(self.root@, path)->0.hi - node_at(self.root@, path)->0.lo == children_size(
                node_at(self.root@, path)->0.children,
                node_at(self.root@, path)->0.children.len() as int,
            ),
    {
        if self.num_tips > 0 {
            lemma_range_is_sum_of_children(self.root@, path);
        } else {
            lemma_node_of_empty_root(path);
            assert(children_size(empty_root().children, 0) == 0);
        }
    }

    /// Builds the index of a database of references, each with its lineage
    /// and its encoded sequence.
    pub fn new(lineages: Vec<String>, sequences: Vec<Vec<u8>>) -> (built: Result<Tree, TreeError>)
        ensures
            is_built_from(built, views(lineages@), views(sequences@)),
    {
        let n: usize = lineages.len();
        if n != sequences.len() {
            return Err(TreeError::LengthMismatch);
        }
        if n > u32::MAX as usize {
            return Err(TreeError::TooManySequences);
        }
        let ghost ls = views(lineages@);
        let ghost ss = views(sequences@);
        let keys = lineage_keys(&lineages);
        let order = sort_indices(&keys);
        let ghost sorted_ls = indexed_lineages(ls);
        let ghost sorted_ss = indexed_sequences(ls, ss);
        let ghost paths = paths_of(sorted_ls);
        proof {
            lemma_row_leq_total(ls);
            lemma_sorted_order(ls.len(), row_leq(ls));
        }
        let mut root = Node {
            label: String::from_str("root"),
            confidence_range: (0, 0),
            children: Vec::new(),
            node_type: NodeType::Inner,
        };
        proof {
            reveal_strlit("root");
            lemma_node_view(&root);
            assert(root@.label =~= empty_root().label);
            assert(root@.children =~= empty_root().children);
        }
        let mut sorted_lineages: Vec<String> = Vec::new();
        let mut sequence_map = sequence_map_new();
        let mut k_mer_map: Vec<Vec<u32>> = Vec::new();
        let mut key: usize = 0;
        while key < 65536
            invariant
                key <= 65536,
                k_mer_map@.len() == key,
                forall|c: int| 0 <= c < key ==> (#[trigger] k_mer_map@[c])@.len() == 0,
            decreases 65536 - key,
        {
            k_mer_map.push(Vec::new());
            key += 1;
        }
        proof {
            assert(sorted_ss.take(0).len() == 0);
            assert forall|c: int, r: u32| 0 <= c < 65536 implies !(#[trigger] k_mer_map@[c]@.contains(
                r,
            )) by {
                assert(k_mer_map@[c]@.len() == 0);
            }
        }
        let mut r: usize = 0;
        while r < n
            invariant
                r <= n,
                n == lineages@.len(),
                n == sequences@.len(),
                n <= u32::MAX,
                ls == views(lineages@),
                ss == views(sequences@),
                views(keys.lineages@) == ls,
                order@ == row_order(ls),
                order@.len() == n,
                forall|k: int| 0 <= k < n ==> (#[trigger] order@[k]) < n,
                sorted_ls == indexed_lineages(ls),
                sorted_ss == indexed_sequences(ls, ss),
                paths == paths_of(sorted_ls),
                views(sorted_lineages@) == sorted_ls.take(r as int),
                root@ == trie_of(paths.take(r as int)),
                posting_lists_of(k_mer_map@, sorted_ss.take(r as int)),
                buckets_of(sequence_map_contents(sequence_map), sorted_ss.take(r as int)),
                forall|q: int| 0 <= q < r ==> !has_empty_label(#[trigger] sorted_ls[q]),
            decreases n - r,
        {
            let row: usize = order[r];
            assert(sorted_ls[r as int] == ls[row as int]);
            assert(sorted_ss[r as int] == ss[row as int]);
            assert(keys.lineages@[row as int]@ == ls[row as int]);
            let tokens = match ranks_of(&keys.lineages[row]) {
                Some(tokens) => tokens,
                None => {
                    assert(has_empty_label(ls[row as int]));
                    return Err(TreeError::EmptyLabel);
                },
            };
            assert(views(tokens@) == paths[r as int]);
            insert_row(&mut root, &tokens, 0, r);
            proof {
                assert(paths.take(r + 1).drop_last() =~= paths.take(r as int));
                assert(paths.take(r + 1).last() == paths[r as int]);
            }
            let lineage = lineages[row].clone();
            let ghost done = sorted_lineages@;
            sorted_lineages.push(lineage);
            proof {
                lemma_views_push(done, lineage);
                assert(sorted_ls.take(r + 1) =~= sorted_ls.take(r as int).push(sorted_ls[r as int]));
                assert(sorted_ss.take(r + 1) =~= sorted_ss.take(r as int).push(sorted_ss[r as int]));
            }
            record_sequence(&mut sequence_map, &sequences[row], r as u32, Ghost(sorted_ss.take(r as int)));
            add_kmers(&mut k_mer_map, &sequences[row], r as u32, Ghost(sorted_ss.take(r as int)));
            r += 1;
        }
        proof {
            assert(sorted_ls.take(n as int) =~= sorted_ls);
            assert(sorted_ss.take(n as int) =~= sorted_ss);
            assert(paths.take(n as int) =~= paths);
            assert forall|i: int| 0 <= i < n implies !has_empty_label(#[trigger] ls[i]) by {
                assert(order@.contains(i as usize));
                let q = choose|q: int| 0 <= q < order@.len() && order@[q] == i as usize;
                assert(sorted_ls[q] == ls[i]);
            }
        }
        let tree = Tree {
            root,
            lineages: sorted_lineages,
            sequences: sequence_map,
            k_mer_map,
            num_tips: n,
        };
        proof {
            tree.lemma_index_well_formed(ls, ss);
        }
        Ok(tree)
    }

    /// The outline of the trie, a line for each node: the label and the
    /// range of the node, indented by two blanks for each rank above it.
    pub fn outline(&self) -> (lines: Vec<String>)
        ensures
            views(lines@) == outline(self.root@, Seq::empty()),
    {
        let mut lines: Vec<String> = Vec::new();
        let indent: Vec<char> = Vec::new();
        assert(views(lines@) =~= Seq::<Seq<char>>::empty());
        self.root.outline_onto(&indent, &mut lines);
        assert(views(lines@) =~= outline(self.root@, Seq::empty()));
        lines
    }

    /// Whether a node is an inner node.
    pub fn is_inner_taxon_node(&self, node: &Node) -> (inner: bool)
        ensures
            inner == (node@.node_type == NodeType::Inner),
    {
        proof {
            lemma_node_view(node);
        }
        match node.node_type {
            NodeType::Inner => true,
            _ => false,
        }
    }

    /// Whether a node is a taxon.
    pub fn is_taxon_leaf(&self, node: &Node) -> (taxon: bool)
        ensures
            taxon == (node@.node_type == NodeType::Taxon),
    {
        proof {
            lemma_node_view(node);
        }
        match node.node_type {
            NodeType::Taxon => true,
            _ => false,
        }
    }
}

} // verus!
