//! Reads from a syntax tree, for every line of the file, how coarse a
//! syntax boundary lies before it.

use crate::extractor::{is_unit, spec_is_unit, Outline};
use crate::grammar::{ClassificationTable, TableModel};
use crate::plan::spec_lower;
use crate::tree::{node_wf, SyntaxNode, SyntaxTree};
use vstd::prelude::*;

verus! {

/// Number of ancestors of the node at `j`.
pub open spec fn spec_depth(nodes: Seq<SyntaxNode>, j: int) -> nat
    decreases j,
{
    if j <= 0 || nodes[j].parent >= j {
        0
    } else {
        spec_depth(nodes, nodes[j].parent as int) + 1
    }
}

/// Whether the node at `j`, or a node that it lies in, is function-like or
/// class-like.
pub open spec fn spec_in_unit(nodes: Seq<SyntaxNode>, table: TableModel, j: int) -> bool
    decreases j,
{
    spec_is_unit(table, nodes[j]) || (0 <= nodes[j].parent < j && spec_in_unit(
        nodes,
        table,
        nodes[j].parent as int,
    ))
}

/// Whether the node at `j` is a function or class that lies in no other.
pub open spec fn spec_top_unit(nodes: Seq<SyntaxNode>, table: TableModel, j: int) -> bool {
    spec_is_unit(table, nodes[j]) && (j <= 0 || !spec_in_unit(
        nodes,
        table,
        nodes[j].parent as int,
    ))
}

/// How coarse the boundaries of the node at `j` are: zero for a function or
/// class that lies in no other, and otherwise one more than the number of
/// its ancestors, so that a node's own boundaries are coarser than those of
/// what it holds.
pub open spec fn spec_level(nodes: Seq<SyntaxNode>, table: TableModel, j: int) -> usize {
    if spec_top_unit(nodes, table, j) {
        0
    } else {
        (spec_depth(nodes, j) + 1) as usize
    }
}

/// The last row that a node covers. A node that ends at the very start of a
/// row does not cover that row.
pub open spec fn spec_last_row(node: SyntaxNode) -> int {
    if node.location.end_column == 0 && node.location.end_row > node.location.start_row {
        node.location.end_row - 1
    } else {
        node.location.end_row as int
    }
}

/// The levels after a boundary of level `level` is noted before `line`: the
/// coarser of the old and the new level stands. A line that the file does
/// not have changes nothing.
pub open spec fn spec_marked(levels: Seq<Option<usize>>, line: int, level: usize) -> Seq<
    Option<usize>,
> {
    if 0 <= line < levels.len() {
        levels.update(line, spec_lower(levels[line], Some(level)))
    } else {
        levels
    }
}

/// For each line of a file of `lines` lines, and for the line after its
/// last, the coarsest level of a boundary before it that the first `k`
/// nodes give. A node gives a boundary before the row it begins on and one
/// after the last row it covers.
pub open spec fn spec_cut_levels(
    nodes: Seq<SyntaxNode>,
    table: TableModel,
    lines: int,
    k: int,
) -> Seq<Option<usize>>
    decreases k,
{
    if k <= 0 {
        Seq::new((lines + 1) as nat, |l: int| None)
    } else {
        let before = spec_cut_levels(nodes, table, lines, k - 1);
        let node = nodes[k - 1];
        let level = spec_level(nodes, table, k - 1);
        spec_marked(
            spec_marked(before, node.location.start_row as int, level),
            spec_last_row(node) + 1,
            level,
        )
    }
}

/// Whether the node at `j` gives a boundary before `line`: it begins on
/// that row, or the row is the one after the last it covers.
pub open spec fn spec_bounds(nodes: Seq<SyntaxNode>, j: int, line: int) -> bool {
    nodes[j].location.start_row == line || spec_last_row(nodes[j]) + 1 == line
}

/// Whether `level` is the coarsest level of a boundary that the first `k`
/// nodes give before `line`: `None` where they give none.
pub open spec fn spec_coarsest(
    nodes: Seq<SyntaxNode>,
    table: TableModel,
    k: int,
    line: int,
    level: Option<usize>,
) -> bool {
    match level {
        None => forall|j: int| 0 <= j < k ==> !#[trigger] spec_bounds(nodes, j, line),
        Some(v) => {
            &&& exists|j: int|
                0 <= j < k && #[trigger] spec_bounds(nodes, j, line) && spec_level(nodes, table, j)
                    == v
            &&& forall|j: int|
                0 <= j < k && #[trigger] spec_bounds(nodes, j, line) ==> v <= spec_level(
                    nodes,
                    table,
                    j,
                )
        },
    }
}

/// The level noted before each line is the coarsest that any node gives
/// there.
pub proof fn lemma_cut_levels(
    nodes: Seq<SyntaxNode>,
    table: TableModel,
    lines: int,
    k: int,
    line: int,
)
    requires
        0 <= k <= nodes.len(),
        0 <= line <= lines,
    ensures
        spec_cut_levels(nodes, table, lines, k).len() == lines + 1,
        spec_coarsest(nodes, table, k, line, spec_cut_levels(nodes, table, lines, k)[line]),
    decreases k,
{
    if k > 0 {
        lemma_cut_levels(nodes, table, lines, k - 1, line);
        let before = spec_cut_levels(nodes, table, lines, k - 1);
        let node = nodes[k - 1];
        let level = spec_level(nodes, table, k - 1);
        let first = spec_marked(before, node.location.start_row as int, level);
        let after = spec_marked(first, spec_last_row(node) + 1, level);
        assert(after == spec_cut_levels(nodes, table, lines, k));
        let old = before[line];
        let new = after[line];
        if spec_bounds(nodes, k - 1, line) {
            assert(new == spec_lower(old, Some(level)));
            match old {
                None => {
                    assert(spec_bounds(nodes, k - 1, line) && spec_level(nodes, table, k - 1)
                        == level);
                },
                Some(v) => {
                    let j = choose|j: int|
                        0 <= j < k - 1 && #[trigger] spec_bounds(nodes, j, line) && spec_level(
                            nodes,
                            table,
                            j,
                        ) == v;
                    assert(spec_bounds(nodes, j, line));
                    assert(spec_bounds(nodes, k - 1, line));
                },
            }
        } else {
            assert(new == old);
            match old {
                None => {},
                Some(v) => {
                    let j = choose|j: int|
                        0 <= j < k - 1 && #[trigger] spec_bounds(nodes, j, line) && spec_level(
                            nodes,
                            table,
                            j,
                        ) == v;
                    assert(spec_bounds(nodes, j, line));
                },
            }
        }
    }
}

fn mark(levels: &mut Vec<Option<usize>>, line: usize, level: usize)
    ensures
        final(levels)@ == spec_marked(old(levels)@, line as int, level),
{
    if line < levels.len() {
        let lower = match levels[line] {
            None => Some(level),
            Some(x) => if x <= level {
                Some(x)
            } else {
                Some(level)
            },
        };
        levels.set(line, lower);
    }
}

/// Reads the level of the boundary before every line from a tree.
pub fn cut_levels(tree: &SyntaxTree, table: &ClassificationTable, o: &Outline, lines: usize) -> (r:
    Vec<Option<usize>>)
    requires
        tree.wf(),
        o.matches(tree@, table@),
        lines < usize::MAX,
    ensures
        r@ == spec_cut_levels(tree@, table@, lines as int, tree@.len() as int),
        r@.len() == lines + 1,
{
    let n = tree.len();
    let mut levels: Vec<Option<usize>> = Vec::new();
    let mut l: usize = 0;
    while l <= lines
        invariant
            l <= lines + 1,
            lines < usize::MAX,
            levels@.len() == l,
            forall|i: int| 0 <= i < l ==> (#[trigger] levels@[i]) is None,
        decreases lines + 1 - l,
    {
        levels.push(None);
        l = l + 1;
    }
    assert(levels@ =~= spec_cut_levels(tree@, table@, lines as int, 0));
    let mut depths: Vec<usize> = Vec::new();
    let mut inside: Vec<bool> = Vec::new();
    let mut j: usize = 0;
    while j < n
        invariant
            j <= n,
            n == tree@.len(),
            tree.wf(),
            o.matches(tree@, table@),
            depths@.len() == j,
            inside@.len() == j,
            levels@.len() == lines + 1,
            forall|k: int| 0 <= k < j ==> #[trigger] depths@[k] == spec_depth(tree@, k) && depths@[k] <= k,
            forall|k: int| 0 <= k < j ==> #[trigger] inside@[k] == spec_in_unit(tree@, table@, k),
            levels@ == spec_cut_levels(tree@, table@, lines as int, j as int),
        decreases n - j,
    {
        let node = tree.node(j);
        assert(node_wf(tree@, j as int));
        let unit = is_unit(o.classes[j]);
        let depth: usize = if j == 0 {
            0
        } else {
            depths[node.parent] + 1
        };
        let within = j > 0 && inside[node.parent];
        let level: usize = if unit && !within {
            0
        } else {
            depth + 1
        };
        let loc = node.location;
        let last_row = if loc.end_column == 0 && loc.end_row > loc.start_row {
            loc.end_row - 1
        } else {
            loc.end_row
        };
        mark(&mut levels, loc.start_row, level);
        mark(&mut levels, last_row + 1, level);
        depths.push(depth);
        inside.push(unit || within);
        j = j + 1;
    }
    levels
}

} // verus!
