//! The lineage trie as a mathematical tree: how a lineage is installed as a
//! root-to-leaf path, and what holds of the ranges of reference ids that the
//! nodes own.

use vstd::prelude::*;

verus! {

/// What a node of the lineage trie stands for.
#[derive(Debug, PartialEq, Eq, Clone, Copy, Structural)]
pub enum NodeType {
    /// A rank above the last rank of the lineage that brought the node.
    Inner,
    /// The last rank of the lineage that brought the node.
    Taxon,
    /// One reference row under the taxon it belongs to.
    Sequence,
}

/// A node of the lineage trie: its label, the half-open range `lo..hi` of
/// reference ids whose lineage passes through it, and its children in order.
pub struct NodeView {
    pub label: Seq<char>,
    pub lo: int,
    pub hi: int,
    pub children: Seq<NodeView>,
    pub node_type: NodeType,
}

/// A node without children that owns the one reference id `idx`.
pub open spec fn fresh_node(label: Seq<char>, idx: int, node_type: NodeType) -> NodeView {
    NodeView { label, lo: idx, hi: idx + 1, children: Seq::empty(), node_type }
}

/// The root of the trie of a database without rows.
pub open spec fn empty_root() -> NodeView {
    NodeView {
        label: seq!['r', 'o', 'o', 't'],
        lo: 0,
        hi: 0,
        children: Seq::empty(),
        node_type: NodeType::Inner,
    }
}

/// Installs the ranks `tokens[level..]` of reference `idx` below `node`.
///
/// The range of `node` is extended to end behind `idx`. Where ranks are
/// left, the next rank descends into the last child if that child carries
/// its label and is no sequence node, and into a new last child otherwise;
/// the new child is a taxon if the rank is the last one and an inner node if
/// not. Where no rank is left, `node` is the taxon of the reference and
/// receives a sequence node for it.
pub open spec fn insert_path(node: NodeView, tokens: Seq<Seq<char>>, level: int, idx: int) -> NodeView
    decreases tokens.len() - level,
{
    if level >= tokens.len() {
        NodeView {
            hi: idx + 1,
            children: node.children.push(fresh_node(node.label, idx, NodeType::Sequence)),
            ..node
        }
    } else {
        let label = tokens[level];
        let node_type = if level == tokens.len() - 1 {
            NodeType::Taxon
        } else {
            NodeType::Inner
        };
        let reuse = node.children.len() > 0 && node.children.last().label == label
            && node.children.last().node_type != NodeType::Sequence;
        let child = if reuse {
            node.children.last()
        } else {
            fresh_node(label, idx, node_type)
        };
        let others = if reuse {
            node.children.drop_last()
        } else {
            node.children
        };
        NodeView {
            hi: idx + 1,
            children: others.push(insert_path(child, tokens, level + 1, idx)),
            ..node
        }
    }
}

/// The trie of the lineages `paths`, each split into its ranks, installed in
/// order: reference `r` is the row `paths[r]`.
pub open spec fn trie_of(paths: Seq<Seq<Seq<char>>>) -> NodeView
    decreases paths.len(),
{
    if paths.len() == 0 {
        empty_root()
    } else {
        insert_path(trie_of(paths.drop_last()), paths.last(), 0, paths.len() - 1)
    }
}

/// The ranges of the children of `node` follow one another without a gap,
/// from the start of the range of `node` to its end.
pub open spec fn children_cover(node: NodeView) -> bool {
    &&& node.children.len() > 0
    &&& node.children.first().lo == node.lo
    &&& node.children.last().hi == node.hi
    &&& forall|i: int, j: int|
        0 <= i && j == i + 1 && j < node.children.len() ==> (#[trigger] node.children[i]).hi == (
        #[trigger] node.children[j]).lo
}

/// The ranges in the subtree of `node` are in order: every range holds a
/// reference, the range of a child lies within that of its parent, a
/// sequence node has no child, and the children of every other node cover
/// its range.
pub open spec fn well_formed(node: NodeView) -> bool
    decreases node,
{
    &&& 0 <= node.lo < node.hi
    &&& forall|i: int|
        0 <= i < node.children.len() ==> {
            &&& well_formed(#[trigger] node.children[i])
            &&& node.lo <= node.children[i].lo
            &&& node.children[i].hi <= node.hi
        }
    &&& node.node_type == NodeType::Sequence ==> node.children.len() == 0
    &&& node.node_type != NodeType::Sequence ==> children_cover(node)
}

/// A child of a node whose ranges are in order has its ranges in order, and
/// its range lies within that of the node.
pub proof fn lemma_well_formed_child(node: NodeView, i: int)
    requires
        well_formed(node),
        0 <= i < node.children.len(),
    ensures
        well_formed(node.children[i]),
        node.lo <= node.children[i].lo < node.children[i].hi <= node.hi,
{
    let child = node.children[i];
    assert(well_formed(child));
}

/// The node that is reached from `root` by going, step by step, to the child
/// with the next index of `path`; `None` where there is no such child.
pub open spec fn node_at(root: NodeView, path: Seq<int>) -> Option<NodeView>
    decreases path.len(),
{
    if path.len() == 0 {
        Some(root)
    } else {
        match node_at(root, path.drop_last()) {
            Some(node) => if 0 <= path.last() < node.children.len() {
                Some(node.children[path.last()])
            } else {
                None
            },
            None => None,
        }
    }
}

/// Every node of a trie whose ranges are in order has its ranges in order,
/// and its range lies within that of the root.
pub proof fn lemma_well_formed_node(root: NodeView, path: Seq<int>)
    requires
        well_formed(root),
        node_at(root, path) is Some,
    ensures
        well_formed(node_at(root, path)->0),
        root.lo <= node_at(root, path)->0.lo,
        node_at(root, path)->0.hi <= root.hi,
    decreases path.len(),
{
    if path.len() > 0 {
        lemma_well_formed_node(root, path.drop_last());
        lemma_well_formed_child(node_at(root, path.drop_last())->0, path.last());
    }
}

/// The number of reference ids that the first `k` of `children` own.
pub open spec fn children_size(children: Seq<NodeView>, k: int) -> int
    decreases k,
{
    if k <= 0 {
        0
    } else {
        children_size(children, k - 1) + (children[k - 1].hi - children[k - 1].lo)
    }
}

/// Children whose ranges follow one another without a gap own, taken
/// together, the ids from the start of the first to the end of the last.
pub proof fn lemma_children_size(node: NodeView, k: int)
    requires
        children_cover(node),
        1 <= k <= node.children.len(),
    ensures
        children_size(node.children, k) == node.children[k - 1].hi - node.lo,
    decreases k,
{
    if k > 1 {
        lemma_children_size(node, k - 1);
        assert(node.children[k - 2].hi == node.children[k - 1].lo);
    } else {
        assert(children_size(node.children, 0) == 0);
    }
}

/// In a trie whose ranges are in order, every node that has children owns
/// as many reference ids as its children own together. The nodes without
/// children are the sequence nodes, each of which owns the id of its
/// reference.
pub proof fn lemma_range_is_sum_of_children(root: NodeView, path: Seq<int>)
    requires
        well_formed(root),
        node_at(root, path) is Some,
        node_at(root, path)->0.children.len() > 0,
    ensures
        node_at(root, path)->0.hi - node_at(root, path)->0.lo == children_size(
            node_at(root, path)->0.children,
            node_at(root, path)->0.children.len() as int,
        ),
{
    let node = node_at(root, path)->0;
    lemma_well_formed_node(root, path);
    lemma_children_size(node, node.children.len() as int);
}

/// `node` and the last child of each node below it end at `idx`: these are
/// the nodes that the next lineage can descend into.
pub open spec fn on_spine(node: NodeView, idx: int) -> bool
    decreases node,
{
    &&& node.hi == idx
    &&& node.children.len() > 0 ==> on_spine(node.children.last(), idx)
}

/// What `insert_path` asks of a node before reference `idx` is installed
/// below it: the node is new, or it is in order and on the spine.
pub open spec fn ready(node: NodeView, idx: int) -> bool {
    &&& node.node_type != NodeType::Sequence
    &&& (node.children.len() == 0 && node.lo == idx && idx >= 0) || (well_formed(node) && on_spine(
        node,
        idx,
    ))
}

/// Installing a reference keeps the ranges in order and moves the spine on.
pub proof fn lemma_insert_path(node: NodeView, tokens: Seq<Seq<char>>, level: int, idx: int)
    requires
        0 <= level <= tokens.len(),
        ready(node, idx),
    ensures
        well_formed(insert_path(node, tokens, level, idx)),
        on_spine(insert_path(node, tokens, level, idx), idx + 1),
        insert_path(node, tokens, level, idx).lo == node.lo,
        insert_path(node, tokens, level, idx).label == node.label,
        insert_path(node, tokens, level, idx).node_type == node.node_type,
    decreases tokens.len() - level,
{
    let after = insert_path(node, tokens, level, idx);
    if level >= tokens.len() {
        let stub = fresh_node(node.label, idx, NodeType::Sequence);
        assert(after.children == node.children.push(stub));
        assert(well_formed(stub));
        assert(on_spine(stub, idx + 1));
        assert(after.children.last() == stub);
        assert forall|i: int| 0 <= i < after.children.len() implies {
            &&& well_formed(#[trigger] after.children[i])
            &&& after.lo <= after.children[i].lo
            &&& after.children[i].hi <= after.hi
        } by {
            if i < node.children.len() {
                assert(after.children[i] == node.children[i]);
            }
        }
        if after.node_type != NodeType::Sequence {
            assert forall|i: int, j: int|
                0 <= i && j == i + 1 && j < after.children.len() implies (
            #[trigger] after.children[i]).hi == (#[trigger] after.children[j]).lo by {
                assert(after.children[i] == node.children[i]);
                if j < node.children.len() {
                    assert(after.children[j] == node.children[j]);
                }
            }
            assert(children_cover(after));
        }
    } else {
        let label = tokens[level];
        let node_type = if level == tokens.len() - 1 {
            NodeType::Taxon
        } else {
            NodeType::Inner
        };
        let reuse = node.children.len() > 0 && node.children.last().label == label
            && node.children.last().node_type != NodeType::Sequence;
        let child = if reuse {
            node.children.last()
        } else {
            fresh_node(label, idx, node_type)
        };
        let others = if reuse {
            node.children.drop_last()
        } else {
            node.children
        };
        lemma_insert_path(child, tokens, level + 1, idx);
        let grown = insert_path(child, tokens, level + 1, idx);
        assert(after.children == others.push(grown));
        assert(after.children.last() == grown);
        assert forall|i: int| 0 <= i < after.children.len() implies {
            &&& well_formed(#[trigger] after.children[i])
            &&& after.lo <= after.children[i].lo
            &&& after.children[i].hi <= after.hi
        } by {
            if i < others.len() {
                assert(after.children[i] == node.children[i]);
            }
        }
        if after.node_type != NodeType::Sequence {
            assert forall|i: int, j: int|
                0 <= i && j == i + 1 && j < after.children.len() implies (
            #[trigger] after.children[i]).hi == (#[trigger] after.children[j]).lo by {
                assert(after.children[i] == node.children[i]);
                if j < others.len() {
                    assert(after.children[j] == node.children[j]);
                } else if reuse {
                    assert(node.children[i].hi == node.children[j].lo);
                }
            }
            if others.len() > 0 {
                assert(after.children.first() == node.children.first());
            }
            assert(children_cover(after));
        }
    }
}

/// The trie of a database with at least one row is in order, and its root
/// owns all reference ids.
pub proof fn lemma_trie_of(paths: Seq<Seq<Seq<char>>>)
    ensures
        paths.len() > 0 ==> well_formed(trie_of(paths)),
        on_spine(trie_of(paths), paths.len() as int),
        trie_of(paths).lo == 0,
        trie_of(paths).hi == paths.len(),
        trie_of(paths).node_type == NodeType::Inner,
        trie_of(paths).label == empty_root().label,
        paths.len() == 0 ==> trie_of(paths) == empty_root(),
    decreases paths.len(),
{
    if paths.len() > 0 {
        lemma_trie_of(paths.drop_last());
        lemma_insert_path(trie_of(paths.drop_last()), paths.last(), 0, paths.len() - 1);
    }
}

/// No inner node of the subtree of `node` has a sequence node as its child:
/// sequence nodes hang under taxa only.
pub open spec fn taxa_closed(node: NodeView) -> bool
    decreases node,
{
    forall|i: int|
        0 <= i < node.children.len() ==> {
            &&& taxa_closed(#[trigger] node.children[i])
            &&& node.node_type == NodeType::Inner ==> node.children[i].node_type != NodeType::Sequence
        }
}

/// A child of a node whose inner nodes have no sequence node as a child has
/// none either.
pub proof fn lemma_taxa_closed_child(node: NodeView, i: int)
    requires
        taxa_closed(node),
        0 <= i < node.children.len(),
    ensures
        taxa_closed(node.children[i]),
        node.node_type == NodeType::Inner ==> node.children[i].node_type != NodeType::Sequence,
{
    let child = node.children[i];
    assert(taxa_closed(child));
}

/// From `node` at depth `level` the last children carry the labels
/// `tokens[level..]`, and the node that carries the last of these labels is
/// a taxon whose last child is a sequence node.
pub open spec fn follows(node: NodeView, tokens: Seq<Seq<char>>, level: int) -> bool
    decreases tokens.len() - level,
{
    if level >= tokens.len() {
        node.node_type == NodeType::Taxon && node.children.len() > 0 && node.children.last().node_type
            == NodeType::Sequence
    } else {
        node.children.len() > 0 && node.children.last().label == tokens[level] && follows(
            node.children.last(),
            tokens,
            level + 1,
        )
    }
}

/// Whether the ranks `tokens[level..]` lead from `node`, label by label
/// through inner nodes and taxa, to a taxon that holds the sequence node of
/// reference `r`.
pub open spec fn holds_row(node: NodeView, tokens: Seq<Seq<char>>, level: int, r: int) -> bool
    decreases tokens.len() - level,
{
    if level >= tokens.len() {
        node.node_type == NodeType::Taxon && exists|i: int|
            0 <= i < node.children.len() && #[trigger] node.children[i] == fresh_node(
                node.label,
                r,
                NodeType::Sequence,
            )
    } else {
        exists|i: int|
            0 <= i < node.children.len() && (#[trigger] node.children[i]).label == tokens[level]
                && node.children[i].node_type != NodeType::Sequence && holds_row(
                node.children[i],
                tokens,
                level + 1,
                r,
            )
    }
}

/// Installing a lineage leaves the paths of the references that are
/// installed as they are.
pub proof fn lemma_insert_keeps_rows(
    node: NodeView,
    tokens: Seq<Seq<char>>,
    level: int,
    idx: int,
    other: Seq<Seq<char>>,
    other_level: int,
    r: int,
)
    requires
        0 <= level,
        holds_row(node, other, other_level, r),
    ensures
        holds_row(insert_path(node, tokens, level, idx), other, other_level, r),
    decreases tokens.len() - level,
{
    let after = insert_path(node, tokens, level, idx);
    let ended = other_level >= other.len();
    let i = if ended {
        choose|i: int|
            0 <= i < node.children.len() && #[trigger] node.children[i] == fresh_node(
                node.label,
                r,
                NodeType::Sequence,
            )
    } else {
        choose|i: int|
            0 <= i < node.children.len() && (#[trigger] node.children[i]).label == other[other_level]
                && node.children[i].node_type != NodeType::Sequence && holds_row(
                node.children[i],
                other,
                other_level + 1,
                r,
            )
    };
    if level >= tokens.len() {
        assert(after.children[i] == node.children[i]);
    } else {
        let label = tokens[level];
        let node_type = if level == tokens.len() - 1 {
            NodeType::Taxon
        } else {
            NodeType::Inner
        };
        let reuse = node.children.len() > 0 && node.children.last().label == label
            && node.children.last().node_type != NodeType::Sequence;
        let child = if reuse {
            node.children.last()
        } else {
            fresh_node(label, idx, node_type)
        };
        let others = if reuse {
            node.children.drop_last()
        } else {
            node.children
        };
        let grown = insert_path(child, tokens, level + 1, idx);
        assert(after.children == others.push(grown));
        if i < others.len() {
            assert(after.children[i] == node.children[i]);
        } else {
            assert(reuse && i == node.children.len() - 1);
            assert(!ended);
            lemma_insert_keeps_rows(child, tokens, level + 1, idx, other, other_level + 1, r);
            assert(after.children[i] == grown);
            assert(grown.label == child.label);
            assert(grown.node_type == child.node_type);
        }
    }
}

/// Whether the ranks `shorter` are the first ranks of `longer`, which has
/// more of them.
pub open spec fn is_proper_start(shorter: Seq<Seq<char>>, longer: Seq<Seq<char>>) -> bool {
    shorter.len() < longer.len() && longer.take(shorter.len() as int) == shorter
}

/// How a node that the lineage `tokens` is about to pass at depth `level`
/// stands to the lineage `before` that was installed last: it lies on the
/// path of `before`, with `tokens` and `before` the same down to it; or it
/// is new.
pub open spec fn passable(node: NodeView, before: Seq<Seq<char>>, tokens: Seq<Seq<char>>, level: int) -> bool {
    ||| (level <= before.len() && follows(node, before, level) && tokens.take(level) == before.take(
        level,
    ))
    ||| (node.children.len() == 0 && node.node_type == if level >= tokens.len() {
        NodeType::Taxon
    } else {
        NodeType::Inner
    })
}

/// Installing a lineage that does not end above the end of the lineage
/// installed before it keeps sequence nodes away from inner nodes, and leaves
/// the last children on the path of the new lineage.
pub proof fn lemma_insert_keeps_taxa_closed(
    node: NodeView,
    before: Seq<Seq<char>>,
    tokens: Seq<Seq<char>>,
    level: int,
    idx: int,
)
    requires
        0 <= level <= tokens.len(),
        taxa_closed(node),
        passable(node, before, tokens, level),
        !is_proper_start(tokens, before),
    ensures
        taxa_closed(insert_path(node, tokens, level, idx)),
        follows(insert_path(node, tokens, level, idx), tokens, level),
        holds_row(insert_path(node, tokens, level, idx), tokens, level, idx),
        insert_path(node, tokens, level, idx).node_type == node.node_type,
        insert_path(node, tokens, level, idx).label == node.label,
    decreases tokens.len() - level,
{
    let after = insert_path(node, tokens, level, idx);
    if level >= tokens.len() {
        let stub = fresh_node(node.label, idx, NodeType::Sequence);
        assert(after.children == node.children.push(stub));
        assert(after.children.last() == stub);
        assert(after.children[after.children.len() - 1] == stub);
        assert(taxa_closed(stub));
        if level <= before.len() && follows(node, before, level) && tokens.take(level)
            == before.take(level) {
            if level < before.len() {
                assert(tokens.take(level) =~= tokens);
                assert(is_proper_start(tokens, before));
            }
        }
        assert(node.node_type == NodeType::Taxon);
        assert forall|i: int| 0 <= i < after.children.len() implies {
            &&& taxa_closed(#[trigger] after.children[i])
            &&& after.node_type == NodeType::Inner ==> after.children[i].node_type
                != NodeType::Sequence
        } by {
            if i < node.children.len() {
                assert(after.children[i] == node.children[i]);
                lemma_taxa_closed_child(node, i);
            }
        }
    } else {
        let label = tokens[level];
        let node_type = if level == tokens.len() - 1 {
            NodeType::Taxon
        } else {
            NodeType::Inner
        };
        let reuse = node.children.len() > 0 && node.children.last().label == label
            && node.children.last().node_type != NodeType::Sequence;
        let child = if reuse {
            node.children.last()
        } else {
            fresh_node(label, idx, node_type)
        };
        let others = if reuse {
            node.children.drop_last()
        } else {
            node.children
        };
        if reuse {
            lemma_taxa_closed_child(node, node.children.len() - 1);
            assert(level < before.len());
            assert(tokens.take(level + 1) =~= tokens.take(level).push(tokens[level]));
            assert(before.take(level + 1) =~= before.take(level).push(before[level]));
            assert(passable(child, before, tokens, level + 1));
        } else {
            assert(taxa_closed(child));
            assert(passable(child, before, tokens, level + 1));
        }
        lemma_insert_keeps_taxa_closed(child, before, tokens, level + 1, idx);
        let grown = insert_path(child, tokens, level + 1, idx);
        assert(after.children == others.push(grown));
        assert(after.children.last() == grown);
        assert(after.children[after.children.len() - 1] == grown);
        assert(grown.label == tokens[level]);
        assert forall|i: int| 0 <= i < after.children.len() implies {
            &&& taxa_closed(#[trigger] after.children[i])
            &&& after.node_type == NodeType::Inner ==> after.children[i].node_type
                != NodeType::Sequence
        } by {
            if i < others.len() {
                assert(after.children[i] == node.children[i]);
                lemma_taxa_closed_child(node, i);
            } else if reuse {
                lemma_taxa_closed_child(node, node.children.len() - 1);
            }
        }
    }
}

/// Every lineage has a rank, and no lineage consists of the first ranks of
/// the lineage before it.
pub open spec fn in_trie_order(paths: Seq<Seq<Seq<char>>>) -> bool {
    &&& forall|q: int| 0 <= q < paths.len() ==> (#[trigger] paths[q]).len() >= 1
    &&& forall|q: int, p: int|
        0 <= p && q == p + 1 && q < paths.len() ==> !is_proper_start(
            #[trigger] paths[q],
            #[trigger] paths[p],
        )
}

/// In the trie of lineages that are installed in such an order, sequence
/// nodes hang under taxa only, and the ranks of every reference lead from
/// the root, label by label, to a taxon that holds the sequence node of the
/// reference.
pub proof fn lemma_trie_taxa_closed(paths: Seq<Seq<Seq<char>>>)
    requires
        in_trie_order(paths),
    ensures
        taxa_closed(trie_of(paths)),
        paths.len() > 0 ==> follows(trie_of(paths), paths.last(), 0),
        forall|r: int| 0 <= r < paths.len() ==> holds_row(trie_of(paths), #[trigger] paths[r], 0, r),
    decreases paths.len(),
{
    if paths.len() > 0 {
        let front = paths.drop_last();
        assert(in_trie_order(front)) by {
            assert forall|q: int| 0 <= q < front.len() implies (#[trigger] front[q]).len() >= 1 by {
                assert(front[q] == paths[q]);
            }
            assert forall|q: int, p: int|
                0 <= p && q == p + 1 && q < front.len() implies !is_proper_start(
                #[trigger] front[q],
                #[trigger] front[p],
            ) by {
                assert(front[q] == paths[q]);
                assert(front[p] == paths[p]);
            }
        }
        lemma_trie_taxa_closed(front);
        lemma_trie_of(front);
        let root = trie_of(front);
        let tokens = paths.last();
        let idx = paths.len() - 1;
        assert(tokens == paths[paths.len() - 1]);
        if front.len() == 0 {
            let before = Seq::<Seq<char>>::empty();
            assert(root == empty_root());
            assert(passable(root, before, tokens, 0));
            assert(!is_proper_start(tokens, before));
            lemma_insert_keeps_taxa_closed(root, before, tokens, 0, idx);
        } else {
            let before = front.last();
            assert(tokens.take(0) =~= before.take(0));
            assert(passable(root, before, tokens, 0));
            assert(paths[paths.len() - 2] == before);
            assert(!is_proper_start(paths[paths.len() - 1], paths[paths.len() - 2]));
            lemma_insert_keeps_taxa_closed(root, before, tokens, 0, idx);
        }
        assert forall|r: int| 0 <= r < paths.len() implies holds_row(
            trie_of(paths),
            #[trigger] paths[r],
            0,
            r,
        ) by {
            if r < idx {
                assert(front[r] == paths[r]);
                assert(holds_row(root, front[r], 0, r));
                lemma_insert_keeps_rows(root, tokens, 0, idx, paths[r], 0, r);
            }
        }
    }
}

/// Every taxon in the subtree of `node`, which stands `depth` ranks below
/// the root, starts its range with a row of `paths` that has as many ranks
/// as the taxon is deep.
pub open spec fn taxa_at_depth(node: NodeView, paths: Seq<Seq<Seq<char>>>, depth: int) -> bool
    decreases node,
{
    &&& node.node_type == NodeType::Taxon ==> 0 <= node.lo < paths.len() && paths[node.lo].len() == depth
    &&& forall|i: int|
        0 <= i < node.children.len() ==> taxa_at_depth(#[trigger] node.children[i], paths, depth + 1)
}

/// What holds of the taxa below a node holds of those below each child, one
/// rank further down.
pub proof fn lemma_taxa_at_depth_child(node: NodeView, paths: Seq<Seq<Seq<char>>>, depth: int, i: int)
    requires
        taxa_at_depth(node, paths, depth),
        0 <= i < node.children.len(),
    ensures
        taxa_at_depth(node.children[i], paths, depth + 1),
{
    let child = node.children[i];
    assert(taxa_at_depth(child, paths, depth + 1));
}

/// Rows that are added behind the rows of `shorter` leave the taxa at their
/// depths.
pub proof fn lemma_taxa_at_depth_extends(
    node: NodeView,
    shorter: Seq<Seq<Seq<char>>>,
    longer: Seq<Seq<Seq<char>>>,
    depth: int,
)
    requires
        taxa_at_depth(node, shorter, depth),
        shorter.len() <= longer.len(),
        forall|r: int| 0 <= r < shorter.len() ==> longer[r] == #[trigger] shorter[r],
    ensures
        taxa_at_depth(node, longer, depth),
    decreases node,
{
    assert forall|i: int| 0 <= i < node.children.len() implies taxa_at_depth(
        #[trigger] node.children[i],
        longer,
        depth + 1,
    ) by {
        lemma_taxa_at_depth_child(node, shorter, depth, i);
        lemma_taxa_at_depth_extends(node.children[i], shorter, longer, depth + 1);
    }
}

/// Installing a row of `paths` leaves the taxa at their depths: the taxon
/// that the row brings stands as deep as the row has ranks.
pub proof fn lemma_insert_keeps_depths(
    node: NodeView,
    paths: Seq<Seq<Seq<char>>>,
    tokens: Seq<Seq<char>>,
    level: int,
    idx: int,
)
    requires
        0 <= level <= tokens.len(),
        0 <= idx < paths.len(),
        paths[idx] == tokens,
        taxa_at_depth(node, paths, level),
    ensures
        taxa_at_depth(insert_path(node, tokens, level, idx), paths, level),
    decreases tokens.len() - level,
{
    let after = insert_path(node, tokens, level, idx);
    if level >= tokens.len() {
        let stub = fresh_node(node.label, idx, NodeType::Sequence);
        assert(after.children == node.children.push(stub));
        assert(taxa_at_depth(stub, paths, level + 1));
        assert forall|i: int| 0 <= i < after.children.len() implies taxa_at_depth(
            #[trigger] after.children[i],
            paths,
            level + 1,
        ) by {
            if i < node.children.len() {
                assert(after.children[i] == node.children[i]);
                lemma_taxa_at_depth_child(node, paths, level, i);
            }
        }
    } else {
        let label = tokens[level];
        let node_type = if level == tokens.len() - 1 {
            NodeType::Taxon
        } else {
            NodeType::Inner
        };
        let reuse = node.children.len() > 0 && node.children.last().label == label
            && node.children.last().node_type != NodeType::Sequence;
        let child = if reuse {
            node.children.last()
        } else {
            fresh_node(label, idx, node_type)
        };
        let others = if reuse {
            node.children.drop_last()
        } else {
            node.children
        };
        if reuse {
            lemma_taxa_at_depth_child(node, paths, level, node.children.len() - 1);
        } else {
            assert(taxa_at_depth(child, paths, level + 1));
        }
        lemma_insert_keeps_depths(child, paths, tokens, level + 1, idx);
        let grown = insert_path(child, tokens, level + 1, idx);
        assert(after.children == others.push(grown));
        assert forall|i: int| 0 <= i < after.children.len() implies taxa_at_depth(
            #[trigger] after.children[i],
            paths,
            level + 1,
        ) by {
            if i < others.len() {
                assert(after.children[i] == node.children[i]);
                lemma_taxa_at_depth_child(node, paths, level, i);
            }
        }
    }
}

/// In the trie of `paths` every taxon starts its range with a row that has
/// as many ranks as the taxon is deep.
pub proof fn lemma_trie_taxa_at_depth(paths: Seq<Seq<Seq<char>>>)
    ensures
        taxa_at_depth(trie_of(paths), paths, 0),
    decreases paths.len(),
{
    if paths.len() > 0 {
        let front = paths.drop_last();
        lemma_trie_taxa_at_depth(front);
        lemma_taxa_at_depth_extends(trie_of(front), front, paths, 0);
        lemma_insert_keeps_depths(trie_of(front), paths, paths.last(), 0, paths.len() - 1);
    }
}

} // verus!
