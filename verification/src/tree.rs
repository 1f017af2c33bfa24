//! A syntax tree held as a flat list of nodes in document order, each node
//! naming its parent by position.

use crate::grammar::labels_model;
use crate::types::SourceLocation;
use vstd::prelude::*;

verus! {

/// One node of a syntax tree.
#[derive(Debug, Clone)]
pub struct SyntaxNode {
    /// The grammar's label for this kind of node.
    pub kind: String,
    /// The name of the field of the parent that holds this node, if any.
    pub field: Option<String>,
    /// Position of the parent in the tree's list; the root names itself.
    pub parent: usize,
    /// Whether the node stands for a named rule of the grammar.
    pub named: bool,
    /// Whether the node is a span of text that could not be parsed.
    pub error: bool,
    /// Whether the node was put in by the parser to recover from an error.
    pub missing: bool,
    pub start_byte: usize,
    pub end_byte: usize,
    pub location: SourceLocation,
}

/// Whether the node at position `j` is in order: it begins before it ends
/// and no earlier than the node listed before it, its parent stands earlier
/// in the list, and its rows lie within those of its parent.
pub open spec fn node_wf(nodes: Seq<SyntaxNode>, j: int) -> bool {
    let node = nodes[j];
    &&& node.location.ordered()
    &&& node.location.end_row < usize::MAX
    &&& j == 0 ==> node.parent == 0
    &&& j > 0 ==> {
        let parent = nodes[node.parent as int];
        &&& nodes[j - 1].location.begins_by(node.location)
        &&& node.parent < j
        &&& parent.location.start_row <= node.location.start_row
        &&& node.location.end_row <= parent.location.end_row
    }
}

/// Whether a list of nodes is a tree in document order: it has a root and
/// every node is in order.
pub open spec fn tree_wf(nodes: Seq<SyntaxNode>) -> bool {
    &&& nodes.len() >= 1
    &&& forall|j: int| 0 <= j < nodes.len() ==> node_wf(nodes, j)
}

/// A syntax tree: its nodes in document order, the root first.
#[derive(Debug, Clone)]
pub struct SyntaxTree {
    nodes: Vec<SyntaxNode>,
}

impl View for SyntaxTree {
    type V = Seq<SyntaxNode>;

    closed spec fn view(&self) -> Seq<SyntaxNode> {
        self.nodes@
    }
}

impl SyntaxTree {
    /// Every tree that this library hands out or accepts is well formed.
    pub open spec fn wf(&self) -> bool {
        tree_wf(self@)
    }

    /// Makes a tree of a list of nodes, or `None` where the list is no tree.
    pub fn new(nodes: Vec<SyntaxNode>) -> (r: Option<SyntaxTree>)
        ensures
            r.is_some() == tree_wf(nodes@),
            r matches Some(t) ==> t@ == nodes@,
    {
        if nodes.len() == 0 {
            return None;
        }
        let mut j: usize = 0;
        while j < nodes.len()
            invariant
                j <= nodes.len(),
                forall|k: int| 0 <= k < j ==> node_wf(nodes@, k),
            decreases nodes.len() - j,
        {
            let node = &nodes[j];
            let loc = node.location;
            let ordered = loc.start_row < loc.end_row || (loc.start_row == loc.end_row
                && loc.start_column <= loc.end_column);
            if !ordered || loc.end_row == usize::MAX {
                assert(!node_wf(nodes@, j as int));
                return None;
            }
            if j == 0 {
                if node.parent != 0 {
                    assert(!node_wf(nodes@, j as int));
                    return None;
                }
            } else {
                if node.parent >= j {
                    assert(!node_wf(nodes@, j as int));
                    return None;
                }
                let parent = &nodes[node.parent];
                if parent.location.start_row > loc.start_row || loc.end_row
                    > parent.location.end_row {
                    assert(!node_wf(nodes@, j as int));
                    return None;
                }
                let before = nodes[j - 1].location;
                let follows = before.start_row < loc.start_row || (before.start_row
                    == loc.start_row && before.start_column <= loc.start_column);
                if !follows {
                    assert(!node_wf(nodes@, j as int));
                    return None;
                }
            }
            j = j + 1;
        }
        Some(SyntaxTree { nodes })
    }

    /// Number of nodes.
    pub fn len(&self) -> (n: usize)
        ensures
            n == self@.len(),
    {
        self.nodes.len()
    }

    /// The node at a position.
    pub fn node(&self, i: usize) -> (node: &SyntaxNode)
        requires
            i < self@.len(),
        ensures
            *node == self@[i as int],
    {
        &self.nodes[i]
    }
}

/// In a tree, a node listed earlier begins no later.
pub proof fn lemma_document_order(nodes: Seq<SyntaxNode>, a: int, b: int)
    requires
        tree_wf(nodes),
        0 <= a <= b < nodes.len(),
    ensures
        nodes[a].location.begins_by(nodes[b].location),
    decreases b - a,
{
    if a < b {
        lemma_document_order(nodes, a, b - 1);
        assert(node_wf(nodes, b));
    }
}

/// Whether a label picks a node: the label is the name of the field that
/// holds the node, or the node's kind.
pub open spec fn spec_locates(node: SyntaxNode, label: Seq<char>) -> bool {
    (node.field matches Some(f) && f@ == label) || node.kind@ == label
}

/// Whether a label picks a node.
pub fn locates(node: &SyntaxNode, label: &String) -> (r: bool)
    ensures
        r == spec_locates(*node, label@),
{
    let by_field = match &node.field {
        Some(f) => *f == *label,
        None => false,
    };
    by_field || node.kind == *label
}

/// Whether the node at `j` is a child of the node at `p` that `label` picks.
pub open spec fn spec_is_child(
    nodes: Seq<SyntaxNode>,
    p: int,
    label: Seq<char>,
    j: int,
) -> bool {
    1 <= j < nodes.len() && nodes[j].parent == p && spec_locates(nodes[j], label)
}

/// The first child of the node at `p` that `label` picks, among the first
/// `k` nodes of the tree.
pub open spec fn spec_first_child(
    nodes: Seq<SyntaxNode>,
    p: int,
    label: Seq<char>,
    k: int,
) -> Option<int>
    decreases k,
{
    if k <= 0 {
        None
    } else {
        match spec_first_child(nodes, p, label, k - 1) {
            Some(c) => Some(c),
            None => if spec_is_child(nodes, p, label, k - 1) {
                Some(k - 1)
            } else {
                None
            },
        }
    }
}

/// The first child of the node at `p` that `label` picks.
pub open spec fn spec_child(nodes: Seq<SyntaxNode>, p: int, label: Seq<char>) -> Option<int> {
    spec_first_child(nodes, p, label, nodes.len() as int)
}

/// What `spec_first_child` finds is a child that the label picks, and no
/// earlier node is one.
pub proof fn lemma_first_child(nodes: Seq<SyntaxNode>, p: int, label: Seq<char>, k: int)
    requires
        0 <= k <= nodes.len(),
    ensures
        spec_first_child(nodes, p, label, k) matches Some(c) ==> 0 <= c < k && spec_is_child(
            nodes,
            p,
            label,
            c,
        ) && forall|j: int| 0 <= j < c ==> !spec_is_child(nodes, p, label, j),
        spec_first_child(nodes, p, label, k) is None ==> forall|j: int|
            0 <= j < k ==> !spec_is_child(nodes, p, label, j),
    decreases k,
{
    if k > 0 {
        lemma_first_child(nodes, p, label, k - 1);
    }
}

/// Whether entry `p` of a table is the first child of node `p` that the
/// label picks among the first `k` nodes, for every `p`. Such a child stands
/// after its parent.
pub open spec fn children_table(
    table: Seq<Option<usize>>,
    nodes: Seq<SyntaxNode>,
    label: Seq<char>,
    k: int,
) -> bool {
    &&& table.len() == nodes.len()
    &&& forall|p: int|
        0 <= p < nodes.len() ==> match #[trigger] table[p] {
            Some(c) => p < c < nodes.len() && nodes[c as int].parent == p && spec_first_child(
                nodes,
                p,
                label,
                k,
            ) == Some(c as int),
            None => spec_first_child(nodes, p, label, k) is None,
        }
}

/// For every node, its first child that `label` picks.
pub fn first_children(tree: &SyntaxTree, label: &String) -> (table: Vec<Option<usize>>)
    requires
        tree.wf(),
    ensures
        children_table(table@, tree@, label@, tree@.len() as int),
{
    let n = tree.len();
    let mut table: Vec<Option<usize>> = Vec::new();
    let mut i: usize = 0;
    while i < n
        invariant
            i <= n,
            n == tree@.len(),
            table@.len() == i,
            forall|p: int| 0 <= p < i ==> (#[trigger] table@[p]) is None,
        decreases n - i,
    {
        table.push(None);
        i = i + 1;
    }
    let mut j: usize = 1;
    assert(children_table(table@, tree@, label@, 1)) by {
        assert forall|p: int| 0 <= p < tree@.len() implies spec_first_child(
            tree@,
            p,
            label@,
            1,
        ) is None by {
            reveal_with_fuel(spec_first_child, 2);
        }
    }
    while j < n
        invariant
            1 <= j <= n,
            n == tree@.len(),
            tree.wf(),
            children_table(table@, tree@, label@, j as int),
        decreases n - j,
    {
        let node = tree.node(j);
        let p = node.parent;
        assert(node_wf(tree@, j as int));
        if locates(node, label) && table[p].is_none() {
            table.set(p, Some(j));
        }
        j = j + 1;
    }
    table
}

/// Whether the node at `j` is the node at `i` or lies within it.
pub open spec fn spec_within(nodes: Seq<SyntaxNode>, i: int, j: int) -> bool
    decreases j,
{
    j == i || (i < j && 0 <= nodes[j].parent < j && spec_within(nodes, i, nodes[j].parent as int))
}

/// Whether entry `k` of a table is a position after the node at `k` and
/// after every node within it: a node's entry is no less than that of any
/// of its children.
pub open spec fn spec_extents(extents: Seq<usize>, nodes: Seq<SyntaxNode>) -> bool {
    &&& extents.len() == nodes.len()
    &&& forall|k: int|
        0 <= k < nodes.len() ==> k < #[trigger] extents[k] <= nodes.len() && (k >= 1
            ==> extents[k] <= extents[nodes[k].parent as int])
}

/// Every node within another stands before the extent of that other.
pub proof fn lemma_within_extent(nodes: Seq<SyntaxNode>, extents: Seq<usize>, p: int, j: int)
    requires
        tree_wf(nodes),
        spec_extents(extents, nodes),
        0 <= p < nodes.len(),
        0 <= j < nodes.len(),
        spec_within(nodes, p, j),
    ensures
        p <= j < extents[j] <= extents[p],
    decreases j,
{
    if j != p {
        assert(node_wf(nodes, j));
        lemma_within_extent(nodes, extents, p, nodes[j].parent as int);
    }
}

/// For every node, a position after it and after every node within it. In
/// a tree whose nodes stand in document order this is where the node's
/// subtree ends.
pub fn subtree_extents(tree: &SyntaxTree) -> (extents: Vec<usize>)
    requires
        tree.wf(),
    ensures
        spec_extents(extents@, tree@),
{
    let n = tree.len();
    let mut extents: Vec<usize> = Vec::new();
    let mut i: usize = 0;
    while i < n
        invariant
            i <= n,
            n == tree@.len(),
            extents@.len() == i,
            forall|k: int| 0 <= k < i ==> #[trigger] extents@[k] == k + 1,
        decreases n - i,
    {
        extents.push(i + 1);
        i = i + 1;
    }
    let mut j: usize = n;
    while j > 1
        invariant
            1 <= j <= n,
            n == tree@.len(),
            tree.wf(),
            extents@.len() == n,
            forall|k: int| 0 <= k < n ==> k < #[trigger] extents@[k] <= n,
            forall|k: int|
                j <= k < n ==> (#[trigger] extents@[k]) <= extents@[tree@[k].parent as int],
        decreases j,
    {
        j = j - 1;
        let parent = tree.node(j).parent;
        assert(node_wf(tree@, j as int));
        let own = extents[j];
        if extents[parent] < own {
            extents.set(parent, own);
        }
        assert forall|k: int| j <= k < n implies (#[trigger] extents@[k]) <= extents@[tree@[k].parent as int] by {
            assert(node_wf(tree@, k));
        }
    }
    extents
}

/// Whether one of the labels picks a node.
pub open spec fn spec_picks(node: SyntaxNode, labels: Seq<Seq<char>>) -> bool {
    exists|i: int| 0 <= i < labels.len() && spec_locates(node, #[trigger] labels[i])
}

/// Whether one of the labels picks a node.
pub fn picks(node: &SyntaxNode, labels: &Vec<String>) -> (r: bool)
    ensures
        r == spec_picks(*node, labels_model(labels@)),
{
    let mut i: usize = 0;
    while i < labels.len()
        invariant
            i <= labels@.len(),
            forall|k: int| 0 <= k < i ==> !spec_locates(*node, #[trigger] labels_model(labels@)[k]),
        decreases labels@.len() - i,
    {
        if locates(node, &labels[i]) {
            assert(spec_locates(*node, labels_model(labels@)[i as int]));
            return true;
        }
        i = i + 1;
    }
    false
}

/// The first node, among those at the positions `lo..k`, that is the node
/// at `p` or lies within it and that one of the labels picks.
pub open spec fn spec_first_picked(
    nodes: Seq<SyntaxNode>,
    p: int,
    labels: Seq<Seq<char>>,
    lo: int,
    k: int,
) -> Option<int>
    decreases k,
{
    if k <= 0 || k <= lo {
        None
    } else {
        match spec_first_picked(nodes, p, labels, lo, k - 1) {
            Some(c) => Some(c),
            None => if spec_within(nodes, p, k - 1) && spec_picks(nodes[k - 1], labels) {
                Some(k - 1)
            } else {
                None
            },
        }
    }
}

/// What `spec_first_picked` finds lies within the node, is picked, and is
/// the first such; once found, it stays found as more nodes are read; and
/// nothing is found at or after the extent of the node.
pub proof fn lemma_first_picked(
    nodes: Seq<SyntaxNode>,
    extents: Seq<usize>,
    p: int,
    labels: Seq<Seq<char>>,
    lo: int,
    k: int,
    further: int,
)
    requires
        tree_wf(nodes),
        spec_extents(extents, nodes),
        0 <= p < nodes.len(),
        0 <= k <= further <= nodes.len(),
    ensures
        spec_first_picked(nodes, p, labels, lo, k) matches Some(c) ==> {
            &&& lo <= c < k
            &&& p <= c < extents[p]
            &&& spec_within(nodes, p, c)
            &&& spec_picks(nodes[c], labels)
            &&& spec_first_picked(nodes, p, labels, lo, further) == Some(c)
        },
        k >= extents[p] ==> spec_first_picked(nodes, p, labels, lo, further) == spec_first_picked(
            nodes,
            p,
            labels,
            lo,
            k,
        ),
    decreases further,
{
    if further > k {
        lemma_first_picked(nodes, extents, p, labels, lo, k, further - 1);
        if spec_within(nodes, p, further - 1) {
            lemma_within_extent(nodes, extents, p, further - 1);
        }
        if spec_first_picked(nodes, p, labels, lo, k) is Some {
            lemma_first_picked(nodes, extents, p, labels, lo, k, k);
        }
    } else if k > 0 {
        lemma_first_picked(nodes, extents, p, labels, lo, k - 1, k - 1);
        if spec_within(nodes, p, k - 1) {
            lemma_within_extent(nodes, extents, p, k - 1);
        }
    }
}

/// Finds the first node at one of the positions `lo..hi` that is the node
/// at `p` or lies within it and that one of the labels picks.
pub fn first_picked(
    tree: &SyntaxTree,
    extents: &Vec<usize>,
    p: usize,
    labels: &Vec<String>,
    lo: usize,
    hi: usize,
) -> (r: Option<usize>)
    requires
        tree.wf(),
        spec_extents(extents@, tree@),
        p <= lo,
        p < tree@.len(),
        hi <= tree@.len(),
    ensures
        match r {
            Some(c) => p <= c < tree@.len() && spec_first_picked(
                tree@,
                p as int,
                labels_model(labels@),
                lo as int,
                hi as int,
            ) == Some(c as int),
            None => spec_first_picked(
                tree@,
                p as int,
                labels_model(labels@),
                lo as int,
                hi as int,
            ) is None,
        },
{
    if hi <= lo {
        return None;
    }
    let end = if hi < extents[p] {
        hi
    } else {
        extents[p]
    };
    let mut inside: Vec<bool> = Vec::new();
    let mut j: usize = p;
    while j < end
        invariant
            p <= j <= end <= hi <= tree@.len(),
            end <= extents@[p as int],
            end == hi || end == extents@[p as int],
            p <= lo,
            tree.wf(),
            spec_extents(extents@, tree@),
            inside@.len() == j - p,
            forall|i: int|
                0 <= i < inside@.len() ==> #[trigger] inside@[i] == spec_within(
                    tree@,
                    p as int,
                    p + i,
                ),
            spec_first_picked(tree@, p as int, labels_model(labels@), lo as int, j as int) is None,
        decreases end - j,
    {
        let node = tree.node(j);
        assert(node_wf(tree@, j as int));
        let within = j == p || (node.parent >= p && inside[node.parent - p]);
        assert(within == spec_within(tree@, p as int, j as int)) by {
            reveal_with_fuel(spec_within, 2);
            if j > p && node.parent >= p {
                assert(p + (node.parent - p) == node.parent);
                assert(inside@[node.parent - p] == spec_within(
                    tree@,
                    p as int,
                    node.parent as int,
                ));
            }
        }
        if j >= lo && within && picks(node, labels) {
            proof {
                lemma_first_picked(
                    tree@,
                    extents@,
                    p as int,
                    labels_model(labels@),
                    lo as int,
                    j + 1,
                    hi as int,
                );
            }
            return Some(j);
        }
        inside.push(within);
        j = j + 1;
    }
    proof {
        lemma_first_picked(
            tree@,
            extents@,
            p as int,
            labels_model(labels@),
            lo as int,
            end as int,
            hi as int,
        );
    }
    None
}

} // verus!
