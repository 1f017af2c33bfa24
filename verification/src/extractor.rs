//! Walks a syntax tree for the functions, classes, imports and syntax errors
//! that it holds, each list in document order.

use crate::grammar::{ClassificationTable, NodeClass, TableModel};
use crate::text::{slice_text, spec_sliceable, text_bytes};
use crate::grammar::labels_model;
use crate::tree::{
    children_table, first_children, first_picked, lemma_document_order,
    lemma_within_extent, locates, node_wf, picks, spec_child, spec_first_picked, spec_picks,
    spec_extents, spec_locates, spec_within, subtree_extents, tree_wf, SyntaxNode, SyntaxTree,
};
use crate::types::{
    classes_model, errors_model, functions_model, imports_model, texts_model, ClassInfo,
    ClassModel, ErrorModel, ErrorNode, FunctionInfo, FunctionModel, ImportInfo, ImportModel,
};
use vstd::prelude::*;
use vstd::string::*;

verus! {

/// The class of a node: that of its kind where the node is named, else `Other`.
pub open spec fn spec_node_class(table: TableModel, node: SyntaxNode) -> NodeClass {
    if node.named {
        table.classify(node.kind@)
    } else {
        NodeClass::Other
    }
}

/// Whether a node is function-like or class-like.
pub open spec fn spec_is_unit(table: TableModel, node: SyntaxNode) -> bool {
    spec_node_class(table, node) is FunctionLike || spec_node_class(table, node) is ClassLike
}

/// Whether the walk reaches the node at `j`. The walk enters every child of
/// a node that is neither function-like nor class-like, and of a function or
/// class only its body.
pub open spec fn spec_visited(nodes: Seq<SyntaxNode>, table: TableModel, j: int) -> bool
    decreases j,
{
    if j <= 0 {
        true
    } else if nodes[j].parent >= j {
        false
    } else {
        let p = nodes[j].parent as int;
        spec_visited(nodes, table, p) && (spec_is_unit(table, nodes[p]) ==> spec_child(
            nodes,
            p,
            table.body,
        ) == Some(j))
    }
}

/// Whether the node at `j` lies in the body of every function and class
/// that it lies in.
pub open spec fn spec_in_bodies(nodes: Seq<SyntaxNode>, table: TableModel, j: int) -> bool {
    forall|a: int|
        0 <= a < j && #[trigger] spec_within(nodes, a, j) && spec_is_unit(table, nodes[a])
            ==> spec_in_body(nodes, table, a, j)
}

/// Whether the node at `j` is the body of the node at `a` or lies within it.
pub open spec fn spec_in_body(nodes: Seq<SyntaxNode>, table: TableModel, a: int, j: int) -> bool {
    match spec_child(nodes, a, table.body) {
        Some(b) => spec_within(nodes, b, j),
        None => false,
    }
}

proof fn lemma_within_order(nodes: Seq<SyntaxNode>, i: int, j: int)
    requires
        spec_within(nodes, i, j),
    ensures
        i <= j,
{
}

/// The walk reaches exactly the nodes that lie in the body of every
/// function and class around them.
pub proof fn lemma_visited(nodes: Seq<SyntaxNode>, table: TableModel, j: int)
    requires
        tree_wf(nodes),
        0 <= j < nodes.len(),
    ensures
        spec_visited(nodes, table, j) == spec_in_bodies(nodes, table, j),
    decreases j,
{
    if j > 0 {
        assert(node_wf(nodes, j));
        let p = nodes[j].parent as int;
        lemma_visited(nodes, table, p);
        assert(spec_within(nodes, p, p));
        assert(spec_within(nodes, p, j));
        if spec_visited(nodes, table, j) {
            assert forall|a: int|
                0 <= a < j && #[trigger] spec_within(nodes, a, j) && spec_is_unit(
                    table,
                    nodes[a],
                ) implies spec_in_body(nodes, table, a, j) by {
                if a == p {
                    assert(spec_within(nodes, j, j));
                } else {
                    assert(spec_within(nodes, a, p));
                    lemma_within_order(nodes, a, p);
                    let b = spec_child(nodes, a, table.body)->0;
                    assert(spec_within(nodes, b, p));
                    lemma_within_order(nodes, b, p);
                }
            }
        }
        if spec_in_bodies(nodes, table, j) {
            assert forall|a: int|
                0 <= a < p && #[trigger] spec_within(nodes, a, p) && spec_is_unit(
                    table,
                    nodes[a],
                ) implies spec_in_body(nodes, table, a, p) by {
                assert(spec_within(nodes, a, j));
                let b = spec_child(nodes, a, table.body)->0;
                crate::tree::lemma_first_child(nodes, a, table.body, nodes.len() as int);
                assert(spec_within(nodes, b, j));
                if b == j {
                    assert(nodes[j].parent == a);
                }
            }
            assert(spec_visited(nodes, table, p));
            if spec_is_unit(table, nodes[p]) {
                let b = spec_child(nodes, p, table.body)->0;
                crate::tree::lemma_first_child(nodes, p, table.body, nodes.len() as int);
                assert(spec_within(nodes, b, j));
                if b != j {
                    assert(spec_within(nodes, b, p));
                    lemma_within_order(nodes, b, p);
                    assert(node_wf(nodes, b));
                }
            }
        }
    }
}

/// The bytes between two offsets, where they can be cut out as text.
pub open spec fn spec_slice(bytes: Seq<u8>, start: int, end: int) -> Option<Seq<u8>> {
    if spec_sliceable(bytes, start, end) {
        Some(bytes.subrange(start, end))
    } else {
        None
    }
}

/// The text that a node spans, where it can be cut out of the source.
pub open spec fn spec_node_text(bytes: Seq<u8>, node: SyntaxNode) -> Option<Seq<u8>> {
    spec_slice(bytes, node.start_byte as int, node.end_byte as int)
}

/// The text that a node spans; empty where it cannot be cut out.
pub open spec fn spec_text_or_empty(bytes: Seq<u8>, node: SyntaxNode) -> Seq<u8> {
    match spec_node_text(bytes, node) {
        Some(t) => t,
        None => Seq::empty(),
    }
}

/// The name that the node at `j` stands for: the text of the first node
/// that is it or lies within it and that one of `kinds` picks, or its own
/// text where there is none. `None` where that text cannot be cut out.
pub open spec fn spec_name_of(
    nodes: Seq<SyntaxNode>,
    bytes: Seq<u8>,
    kinds: Seq<Seq<char>>,
    j: int,
) -> Option<Seq<u8>> {
    match spec_first_picked(nodes, j, kinds, j, nodes.len() as int) {
        Some(c) => spec_node_text(bytes, nodes[c]),
        None => spec_node_text(bytes, nodes[j]),
    }
}

/// Whether the node at `j` declares one name of the list at `p`. Every
/// named child of the list is a declaration; it declares what its children
/// that `label` picks stand for, each of them, or itself where `label`
/// picks none of its children.
pub open spec fn spec_declares(nodes: Seq<SyntaxNode>, p: int, label: Seq<char>, j: int) -> bool {
    let q = nodes[j].parent as int;
    &&& 1 <= j
    &&& 0 <= q < j
    &&& {
        ||| q == p && nodes[j].named && spec_child(nodes, j, label) is None
        ||| 1 <= q && q != p && nodes[q].parent == p && nodes[q].named && spec_locates(
            nodes[j],
            label,
        )
    }
}

/// The names that the list at `p` declares among the first `k` nodes, in
/// document order: one for each node that declares a name and whose name
/// can be cut out.
pub open spec fn spec_names_under(
    nodes: Seq<SyntaxNode>,
    bytes: Seq<u8>,
    kinds: Seq<Seq<char>>,
    p: int,
    label: Seq<char>,
    k: int,
) -> Seq<Seq<u8>>
    decreases k,
{
    if k <= 0 {
        Seq::empty()
    } else {
        let before = spec_names_under(nodes, bytes, kinds, p, label, k - 1);
        if spec_declares(nodes, p, label, k - 1) {
            match spec_name_of(nodes, bytes, kinds, k - 1) {
                Some(name) => before.push(name),
                None => before,
            }
        } else {
            before
        }
    }
}

/// Where the head of the function at `i` ends: at its parameter list, or at
/// its body where it has no list, or at the end of the tree.
pub open spec fn spec_function_head(nodes: Seq<SyntaxNode>, table: TableModel, i: int) -> int {
    match spec_child(nodes, i, table.parameters) {
        Some(p) => p,
        None => match spec_child(nodes, i, table.body) {
            Some(b) => b,
            None => nodes.len() as int,
        },
    }
}

/// Whether the function at `i` is marked asynchronous: a node in its head
/// is picked by the async labels.
pub open spec fn spec_is_async(nodes: Seq<SyntaxNode>, table: TableModel, i: int) -> bool {
    spec_first_picked(
        nodes,
        i,
        table.async_marker,
        i + 1,
        spec_function_head(nodes, table, i),
    ) is Some
}

/// Whether the function at `i` is marked exported: the node that holds it
/// is picked by the export labels, or a node in its head is.
pub open spec fn spec_is_exported(nodes: Seq<SyntaxNode>, table: TableModel, i: int) -> bool {
    (i > 0 && spec_picks(nodes[nodes[i].parent as int], table.export_marker)) || spec_first_picked(
        nodes,
        i,
        table.export_marker,
        i + 1,
        spec_function_head(nodes, table, i),
    ) is Some
}

/// The record of the function at `i`, or `None` where it has no name that
/// can be read. The signature runs from the start of the node to the start
/// of its body, or to the end of the node where it has no body. The
/// parameters are the names that the parameter list declares.
pub open spec fn spec_function_at(
    nodes: Seq<SyntaxNode>,
    bytes: Seq<u8>,
    table: TableModel,
    i: int,
) -> Option<FunctionModel> {
    let node = nodes[i];
    let signature_end = match spec_child(nodes, i, table.body) {
        Some(b) => nodes[b].start_byte as int,
        None => node.end_byte as int,
    };
    match spec_child(nodes, i, table.name) {
        None => None,
        Some(n) => match (
            spec_node_text(bytes, nodes[n]),
            spec_slice(bytes, node.start_byte as int, signature_end),
        ) {
            (Some(name), Some(signature)) => Some(
                FunctionModel {
                    name,
                    signature,
                    start_line: node.location.start_row + 1,
                    end_line: node.location.end_row + 1,
                    parameters: match spec_child(nodes, i, table.parameters) {
                        Some(p) => spec_names_under(
                            nodes,
                            bytes,
                            table.name_kinds,
                            p,
                            table.parameter_name,
                            nodes.len() as int,
                        ),
                        None => Seq::empty(),
                    },
                    return_type: match spec_child(nodes, i, table.return_type) {
                        Some(r) => spec_node_text(bytes, nodes[r]),
                        None => None,
                    },
                    is_async: spec_is_async(nodes, table, i),
                    is_exported: spec_is_exported(nodes, table, i),
                },
            ),
            _ => None,
        },
    }
}

/// The functions found among the first `k` nodes, in document order: every
/// function-like node that the walk reaches and that has a readable name.
pub open spec fn spec_functions(
    nodes: Seq<SyntaxNode>,
    bytes: Seq<u8>,
    table: TableModel,
    k: int,
) -> Seq<FunctionModel>
    decreases k,
{
    if k <= 0 {
        Seq::empty()
    } else {
        let before = spec_functions(nodes, bytes, table, k - 1);
        let j = k - 1;
        if spec_visited(nodes, table, j) && spec_node_class(table, nodes[j]) is FunctionLike {
            match spec_function_at(nodes, bytes, table, j) {
                Some(f) => before.push(f),
                None => before,
            }
        } else {
            before
        }
    }
}

/// What the walk needs to know of every node before it reads any: its class,
/// the children that the table's labels pick, whether the walk reaches it,
/// and where the nodes within it end.
pub struct Outline {
    pub classes: Vec<NodeClass>,
    pub names: Vec<Option<usize>>,
    pub bodies: Vec<Option<usize>>,
    pub parameters: Vec<Option<usize>>,
    pub return_types: Vec<Option<usize>>,
    pub parameter_names: Vec<Option<usize>>,
    pub type_only_markers: Vec<Option<usize>>,
    pub visited: Vec<bool>,
    pub extents: Vec<usize>,
}

impl Outline {
    /// Whether the outline is that of the given tree under the given table.
    pub open spec fn matches(self, nodes: Seq<SyntaxNode>, table: TableModel) -> bool {
        let n = nodes.len() as int;
        &&& self.classes@.len() == n
        &&& self.visited@.len() == n
        &&& forall|j: int|
            0 <= j < n ==> #[trigger] self.classes@[j] == spec_node_class(table, nodes[j])
        &&& forall|j: int| 0 <= j < n ==> #[trigger] self.visited@[j] == spec_visited(nodes, table, j)
        &&& children_table(self.names@, nodes, table.name, n)
        &&& children_table(self.bodies@, nodes, table.body, n)
        &&& children_table(self.parameters@, nodes, table.parameters, n)
        &&& children_table(self.return_types@, nodes, table.return_type, n)
        &&& children_table(self.parameter_names@, nodes, table.parameter_name, n)
        &&& children_table(self.type_only_markers@, nodes, table.type_only_marker, n)
        &&& spec_extents(self.extents@, nodes)
    }
}

/// Whether a class is function-like or class-like.
pub fn is_unit(class: NodeClass) -> (r: bool)
    ensures
        r == (class is FunctionLike || class is ClassLike),
{
    match class {
        NodeClass::FunctionLike => true,
        NodeClass::ClassLike => true,
        _ => false,
    }
}

/// Reads a tree once for each label of the table and once for the walk.
pub fn outline(tree: &SyntaxTree, table: &ClassificationTable) -> (r: Outline)
    requires
        tree.wf(),
    ensures
        r.matches(tree@, table@),
{
    let n = tree.len();
    let bodies = first_children(tree, &table.body);
    let mut classes: Vec<NodeClass> = Vec::new();
    let mut visited: Vec<bool> = Vec::new();
    let mut j: usize = 0;
    while j < n
        invariant
            j <= n,
            n == tree@.len(),
            tree.wf(),
            classes@.len() == j,
            visited@.len() == j,
            children_table(bodies@, tree@, table@.body, n as int),
            forall|k: int|
                0 <= k < j ==> #[trigger] classes@[k] == spec_node_class(table@, tree@[k]),
            forall|k: int|
                0 <= k < j ==> #[trigger] visited@[k] == spec_visited(tree@, table@, k),
        decreases n - j,
    {
        let node = tree.node(j);
        let class = if node.named {
            table.classify(&node.kind)
        } else {
            NodeClass::Other
        };
        assert(node_wf(tree@, j as int));
        let reached = if j == 0 {
            true
        } else {
            let p = node.parent;
            let through = if is_unit(classes[p]) {
                match bodies[p] {
                    Some(b) => b == j,
                    None => false,
                }
            } else {
                true
            };
            visited[p] && through
        };
        classes.push(class);
        visited.push(reached);
        j = j + 1;
    }
    Outline {
        classes,
        names: first_children(tree, &table.name),
        bodies,
        parameters: first_children(tree, &table.parameters),
        return_types: first_children(tree, &table.return_type),
        parameter_names: first_children(tree, &table.parameter_name),
        type_only_markers: first_children(tree, &table.type_only_marker),
        visited,
        extents: subtree_extents(tree),
    }
}

/// The text that a node spans, where it can be cut out of the source.
pub fn node_text(source: &str, node: &SyntaxNode) -> (r: Option<String>)
    ensures
        match r {
            Some(s) => spec_node_text(text_bytes(source@), *node) == Some(text_bytes(s@)),
            None => spec_node_text(text_bytes(source@), *node) is None,
        },
{
    slice_text(source, node.start_byte, node.end_byte)
}

/// The text that a node spans; empty where it cannot be cut out.
pub fn node_text_or_empty(source: &str, node: &SyntaxNode) -> (r: String)
    ensures
        text_bytes(r@) == spec_text_or_empty(text_bytes(source@), *node),
{
    match node_text(source, node) {
        Some(s) => s,
        None => {
            let s = String::new();
            assert(text_bytes(s@) =~= Seq::<u8>::empty()) by {
                reveal_with_fuel(vstd::utf8::encode_utf8, 1);
            }
            s
        },
    }
}

/// What a list declares stands after it and before its extent: the names
/// found up to any position past the extent are those found up to the
/// extent, and none is found up to the list itself.
proof fn lemma_names_under_range(
    nodes: Seq<SyntaxNode>,
    bytes: Seq<u8>,
    kinds: Seq<Seq<char>>,
    extents: Seq<usize>,
    p: int,
    label: Seq<char>,
    k: int,
)
    requires
        tree_wf(nodes),
        spec_extents(extents, nodes),
        0 <= p < nodes.len(),
        0 <= k <= nodes.len(),
    ensures
        k <= p + 1 ==> spec_names_under(nodes, bytes, kinds, p, label, k)
            == Seq::<Seq<u8>>::empty(),
        k >= extents[p] ==> spec_names_under(nodes, bytes, kinds, p, label, k)
            == spec_names_under(nodes, bytes, kinds, p, label, extents[p] as int),
    decreases k,
{
    if k > 0 {
        lemma_names_under_range(nodes, bytes, kinds, extents, p, label, k - 1);
        let j = k - 1;
        if spec_declares(nodes, p, label, j) {
            assert(node_wf(nodes, j));
            let q = nodes[j].parent as int;
            assert(spec_within(nodes, p, p));
            if q != p {
                assert(node_wf(nodes, q));
                assert(spec_within(nodes, p, q));
            }
            assert(spec_within(nodes, p, j));
            lemma_within_extent(nodes, extents, p, j);
        }
    }
}

/// The name that a node stands for.
pub fn name_of(tree: &SyntaxTree, source: &str, o: &Outline, kinds: &Vec<String>, j: usize) -> (r:
    Option<String>)
    requires
        tree.wf(),
        spec_extents(o.extents@, tree@),
        j < tree@.len(),
    ensures
        match r {
            Some(s) => spec_name_of(tree@, text_bytes(source@), labels_model(kinds@), j as int)
                == Some(text_bytes(s@)),
            None => spec_name_of(tree@, text_bytes(source@), labels_model(kinds@), j as int)
                is None,
        },
{
    match first_picked(tree, &o.extents, j, kinds, j, tree.len()) {
        Some(c) => node_text(source, tree.node(c)),
        None => node_text(source, tree.node(j)),
    }
}

/// The names that a list declares. `firsts` holds, for every node, its
/// first child that `label` picks.
pub fn names_under(
    tree: &SyntaxTree,
    source: &str,
    o: &Outline,
    kinds: &Vec<String>,
    p: usize,
    label: &String,
    firsts: &Vec<Option<usize>>,
) -> (r: Vec<String>)
    requires
        tree.wf(),
        spec_extents(o.extents@, tree@),
        children_table(firsts@, tree@, label@, tree@.len() as int),
        p < tree@.len(),
    ensures
        texts_model(r@) == spec_names_under(
            tree@,
            text_bytes(source@),
            labels_model(kinds@),
            p as int,
            label@,
            tree@.len() as int,
        ),
{
    let end = o.extents[p];
    let mut r: Vec<String> = Vec::new();
    let mut k: usize = p + 1;
    proof {
        lemma_names_under_range(
            tree@,
            text_bytes(source@),
            labels_model(kinds@),
            o.extents@,
            p as int,
            label@,
            p + 1,
        );
        lemma_names_under_range(
            tree@,
            text_bytes(source@),
            labels_model(kinds@),
            o.extents@,
            p as int,
            label@,
            tree@.len() as int,
        );
        assert(texts_model(r@) =~= Seq::<Seq<u8>>::empty());
    }
    while k < end
        invariant
            p < k <= end <= tree@.len(),
            tree.wf(),
            spec_extents(o.extents@, tree@),
            children_table(firsts@, tree@, label@, tree@.len() as int),
            texts_model(r@) == spec_names_under(
                tree@,
                text_bytes(source@),
                labels_model(kinds@),
                p as int,
                label@,
                k as int,
            ),
        decreases end - k,
    {
        let node = tree.node(k);
        assert(node_wf(tree@, k as int));
        let q = node.parent;
        let declares = if q == p {
            node.named && firsts[k].is_none()
        } else {
            q >= 1 && tree.node(q).parent == p && tree.node(q).named && locates(node, label)
        };
        if declares {
            match name_of(tree, source, o, kinds, k) {
                Some(s) => {
                    let ghost before = r@;
                    r.push(s);
                    assert(texts_model(r@) =~= texts_model(before).push(text_bytes(s@)));
                },
                None => {},
            }
        }
        k = k + 1;
    }
    r
}

/// The record of the function at `i`, or `None` where it has no name that
/// can be read.
pub fn extract_function_info(
    tree: &SyntaxTree,
    source: &str,
    table: &ClassificationTable,
    o: &Outline,
    i: usize,
) -> (r: Option<FunctionInfo>)
    requires
        tree.wf(),
        o.matches(tree@, table@),
        i < tree@.len(),
    ensures
        match r {
            Some(f) => spec_function_at(tree@, text_bytes(source@), table@, i as int) == Some(f@),
            None => spec_function_at(tree@, text_bytes(source@), table@, i as int) is None,
        },
{
    let node = tree.node(i);
    assert(node_wf(tree@, i as int));
    let signature_end = match o.bodies[i] {
        Some(b) => tree.node(b).start_byte,
        None => node.end_byte,
    };
    let name_at = match o.names[i] {
        Some(n) => n,
        None => {
            return None;
        },
    };
    let name = match node_text(source, tree.node(name_at)) {
        Some(s) => s,
        None => {
            return None;
        },
    };
    let signature = match slice_text(source, node.start_byte, signature_end) {
        Some(s) => s,
        None => {
            return None;
        },
    };
    let parameters = match o.parameters[i] {
        Some(p) => names_under(
            tree,
            source,
            o,
            &table.name_kinds,
            p,
            &table.parameter_name,
            &o.parameter_names,
        ),
        None => {
            let v: Vec<String> = Vec::new();
            assert(texts_model(v@) =~= Seq::<Seq<u8>>::empty());
            v
        },
    };
    let return_type = match o.return_types[i] {
        Some(r) => node_text(source, tree.node(r)),
        None => None,
    };
    let head = match o.parameters[i] {
        Some(p) => p,
        None => match o.bodies[i] {
            Some(b) => b,
            None => tree.len(),
        },
    };
    let is_async = first_picked(tree, &o.extents, i, &table.async_marker, i + 1, head).is_some();
    let held = i > 0 && picks(tree.node(node.parent), &table.export_marker);
    let is_exported = held || first_picked(
        tree,
        &o.extents,
        i,
        &table.export_marker,
        i + 1,
        head,
    ).is_some();
    Some(
        FunctionInfo {
            name,
            signature,
            start_line: node.location.start_row + 1,
            end_line: node.location.end_row + 1,
            parameters,
            return_type,
            is_async,
            is_exported,
        },
    )
}

/// A function record never ends before it begins.
pub proof fn lemma_function_wf(nodes: Seq<SyntaxNode>, bytes: Seq<u8>, table: TableModel, i: int)
    requires
        tree_wf(nodes),
        0 <= i < nodes.len(),
    ensures
        spec_function_at(nodes, bytes, table, i) matches Some(f) ==> f.wf() && f.start_line
            == nodes[i].location.start_row + 1 && f.end_line == nodes[i].location.end_row + 1,
{
    assert(node_wf(nodes, i));
}

/// Every function that the walk lists begins on or before the line it ends on.
pub proof fn lemma_functions_wf(nodes: Seq<SyntaxNode>, bytes: Seq<u8>, table: TableModel, k: int)
    requires
        tree_wf(nodes),
        0 <= k <= nodes.len(),
    ensures
        forall|i: int|
            0 <= i < spec_functions(nodes, bytes, table, k).len() ==> (#[trigger] spec_functions(
                nodes,
                bytes,
                table,
                k,
            )[i]).wf(),
    decreases k,
{
    if k > 0 {
        lemma_functions_wf(nodes, bytes, table, k - 1);
        lemma_function_wf(nodes, bytes, table, k - 1);
        let all = spec_functions(nodes, bytes, table, k);
        let before = spec_functions(nodes, bytes, table, k - 1);
        assert forall|i: int| 0 <= i < all.len() implies (#[trigger] all[i]).wf() by {
            if i < before.len() {
                assert(all[i] == before[i]);
            }
        }
    }
}

/// Whether function records come in the order of the lines they begin on.
pub open spec fn functions_sorted(v: Seq<FunctionModel>) -> bool {
    forall|i: int, j: int|
        0 <= i <= j < v.len() ==> (#[trigger] v[i]).start_line <= (#[trigger] v[j]).start_line
}

/// The functions that the walk lists come in the order of the lines they
/// begin on, none after the line of the last node read.
pub proof fn lemma_functions_sorted(
    nodes: Seq<SyntaxNode>,
    bytes: Seq<u8>,
    table: TableModel,
    k: int,
)
    requires
        tree_wf(nodes),
        0 <= k <= nodes.len(),
    ensures
        functions_sorted(spec_functions(nodes, bytes, table, k)),
        forall|i: int|
            0 <= i < spec_functions(nodes, bytes, table, k).len() ==> (#[trigger] spec_functions(
                nodes,
                bytes,
                table,
                k,
            )[i]).start_line <= nodes[k - 1].location.start_row + 1,
    decreases k,
{
    if k > 0 {
        lemma_functions_sorted(nodes, bytes, table, k - 1);
        lemma_function_wf(nodes, bytes, table, k - 1);
        let all = spec_functions(nodes, bytes, table, k);
        let before = spec_functions(nodes, bytes, table, k - 1);
        if k > 1 {
            lemma_document_order(nodes, k - 2, k - 1);
        }
        assert forall|i: int| 0 <= i < all.len() implies (#[trigger] all[i]).start_line
            <= nodes[k - 1].location.start_row + 1 by {
            if i < before.len() {
                assert(all[i] == before[i]);
            }
        }
        assert forall|i: int, j: int| 0 <= i <= j < all.len() implies (#[trigger] all[i]).start_line
            <= (#[trigger] all[j]).start_line by {
            if j < before.len() {
                assert(all[i] == before[i]);
                assert(all[j] == before[j]);
            } else if i < before.len() {
                assert(all[i] == before[i]);
            }
        }
    }
}

/// Extract all functions from the tree, in document order: every
/// function-like node that the walk reaches and that has a readable name.
/// Functions nested in the body of another follow it, and no function is
/// listed before one that begins on an earlier line.
pub fn extract_functions(tree: &SyntaxTree, source: &str, table: &ClassificationTable) -> (r: Vec<
    FunctionInfo,
>)
    requires
        tree.wf(),
    ensures
        functions_model(r@) == spec_functions(
            tree@,
            text_bytes(source@),
            table@,
            tree@.len() as int,
        ),
        forall|i: int| 0 <= i < r@.len() ==> (#[trigger] r@[i])@.wf(),
        functions_sorted(functions_model(r@)),
{
    let o = outline(tree, table);
    let r = functions_with(tree, source, table, &o);
    proof {
        lemma_functions_sorted(tree@, text_bytes(source@), table@, tree@.len() as int);
        lemma_functions_wf(tree@, text_bytes(source@), table@, tree@.len() as int);
        assert forall|i: int| 0 <= i < r@.len() implies (#[trigger] r@[i])@.wf() by {
            assert(functions_model(r@)[i] == r@[i]@);
        }
    }
    r
}

/// The functions of a tree whose outline is at hand.
pub fn functions_with(
    tree: &SyntaxTree,
    source: &str,
    table: &ClassificationTable,
    o: &Outline,
) -> (r: Vec<FunctionInfo>)
    requires
        tree.wf(),
        o.matches(tree@, table@),
    ensures
        functions_model(r@) == spec_functions(
            tree@,
            text_bytes(source@),
            table@,
            tree@.len() as int,
        ),
{
    let n = tree.len();
    let mut r: Vec<FunctionInfo> = Vec::new();
    let mut k: usize = 0;
    assert(functions_model(r@) =~= Seq::<FunctionModel>::empty());
    while k < n
        invariant
            k <= n,
            n == tree@.len(),
            tree.wf(),
            o.matches(tree@, table@),
            functions_model(r@) == spec_functions(tree@, text_bytes(source@), table@, k as int),
        decreases n - k,
    {
        if o.visited[k] {
            if let NodeClass::FunctionLike = o.classes[k] {
                if let Some(f) = extract_function_info(tree, source, table, o, k) {
                    let ghost before = r@;
                    let ghost model = f@;
                    r.push(f);
                    assert(functions_model(r@) =~= functions_model(before).push(model));
                }
            }
        }
        k = k + 1;
    }
    r
}

/// The methods among the first `k` nodes of the class whose body stands at
/// `b`: the function-like children of the body that have a readable name.
pub open spec fn spec_methods(
    nodes: Seq<SyntaxNode>,
    bytes: Seq<u8>,
    table: TableModel,
    b: int,
    k: int,
) -> Seq<FunctionModel>
    decreases k,
{
    if k <= 0 {
        Seq::empty()
    } else {
        let before = spec_methods(nodes, bytes, table, b, k - 1);
        let j = k - 1;
        if j >= 1 && nodes[j].parent == b && spec_node_class(table, nodes[j]) is FunctionLike {
            match spec_function_at(nodes, bytes, table, j) {
                Some(f) => before.push(f),
                None => before,
            }
        } else {
            before
        }
    }
}

/// Where the head of the class at `i` ends: at its body, or at the end of
/// the tree where it has none.
pub open spec fn spec_class_head(nodes: Seq<SyntaxNode>, table: TableModel, i: int) -> int {
    match spec_child(nodes, i, table.body) {
        Some(b) => b,
        None => nodes.len() as int,
    }
}

/// The name of what the class at `i` extends: the first of the type names
/// that the first clause in its head that the superclass labels pick
/// declares. `None` where the head holds no such clause, or the clause
/// declares nothing.
pub open spec fn spec_extends(
    nodes: Seq<SyntaxNode>,
    bytes: Seq<u8>,
    table: TableModel,
    i: int,
) -> Option<Seq<u8>> {
    match spec_first_picked(nodes, i, table.superclass, i + 1, spec_class_head(nodes, table, i)) {
        Some(c) => {
            let names = spec_names_under(
                nodes,
                bytes,
                table.type_name_kinds,
                c,
                table.name,
                nodes.len() as int,
            );
            if names.len() > 0 {
                Some(names[0])
            } else {
                None
            }
        },
        None => None,
    }
}

/// The list of the interfaces that the class at `i` implements: the first
/// clause in its head that the interface labels pick, or the list within
/// that clause where the table names one.
pub open spec fn spec_interface_list(
    nodes: Seq<SyntaxNode>,
    table: TableModel,
    i: int,
) -> Option<int> {
    match spec_first_picked(nodes, i, table.interfaces, i + 1, spec_class_head(nodes, table, i)) {
        Some(c) => match spec_first_picked(nodes, c, table.interface_list, c, nodes.len() as int) {
            Some(l) => Some(l),
            None => Some(c),
        },
        None => None,
    }
}

/// The names of the interfaces that the class at `i` implements, in order:
/// the type names that its interface list declares.
pub open spec fn spec_implements(
    nodes: Seq<SyntaxNode>,
    bytes: Seq<u8>,
    table: TableModel,
    i: int,
) -> Seq<Seq<u8>> {
    match spec_interface_list(nodes, table, i) {
        Some(l) => spec_names_under(
            nodes,
            bytes,
            table.type_name_kinds,
            l,
            table.name,
            nodes.len() as int,
        ),
        None => Seq::empty(),
    }
}

/// The record of the class at `i`, or `None` where it has no name that can
/// be read. Classes nested in its body are no methods of it.
pub open spec fn spec_class_at(
    nodes: Seq<SyntaxNode>,
    bytes: Seq<u8>,
    table: TableModel,
    i: int,
) -> Option<ClassModel> {
    let node = nodes[i];
    match spec_child(nodes, i, table.name) {
        None => None,
        Some(n) => match spec_node_text(bytes, nodes[n]) {
            None => None,
            Some(name) => Some(
                ClassModel {
                    name,
                    extends: spec_extends(nodes, bytes, table, i),
                    implements: spec_implements(nodes, bytes, table, i),
                    methods: match spec_child(nodes, i, table.body) {
                        Some(b) => spec_methods(nodes, bytes, table, b, nodes.len() as int),
                        None => Seq::empty(),
                    },
                    start_line: node.location.start_row + 1,
                    end_line: node.location.end_row + 1,
                },
            ),
        },
    }
}

/// The classes found among the first `k` nodes, in document order: every
/// class-like node that the walk reaches and that has a readable name.
pub open spec fn spec_classes(
    nodes: Seq<SyntaxNode>,
    bytes: Seq<u8>,
    table: TableModel,
    k: int,
) -> Seq<ClassModel>
    decreases k,
{
    if k <= 0 {
        Seq::empty()
    } else {
        let before = spec_classes(nodes, bytes, table, k - 1);
        let j = k - 1;
        if spec_visited(nodes, table, j) && spec_node_class(table, nodes[j]) is ClassLike {
            match spec_class_at(nodes, bytes, table, j) {
                Some(c) => before.push(c),
                None => before,
            }
        } else {
            before
        }
    }
}

/// Every method of a body lies within the lines of the body.
pub proof fn lemma_methods_within(
    nodes: Seq<SyntaxNode>,
    bytes: Seq<u8>,
    table: TableModel,
    b: int,
    k: int,
)
    requires
        tree_wf(nodes),
        0 <= b < nodes.len(),
        0 <= k <= nodes.len(),
    ensures
        forall|i: int|
            0 <= i < spec_methods(nodes, bytes, table, b, k).len() ==> {
                let m = #[trigger] spec_methods(nodes, bytes, table, b, k)[i];
                m.wf() && nodes[b].location.start_row + 1 <= m.start_line && m.end_line
                    <= nodes[b].location.end_row + 1
            },
    decreases k,
{
    if k > 0 {
        lemma_methods_within(nodes, bytes, table, b, k - 1);
        lemma_function_wf(nodes, bytes, table, k - 1);
        assert(node_wf(nodes, k - 1));
    }
}

/// A class record never ends before it begins, and each of its methods lies
/// within its lines.
pub proof fn lemma_class_wf(nodes: Seq<SyntaxNode>, bytes: Seq<u8>, table: TableModel, i: int)
    requires
        tree_wf(nodes),
        0 <= i < nodes.len(),
    ensures
        spec_class_at(nodes, bytes, table, i) matches Some(c) ==> c.wf(),
{
    assert(node_wf(nodes, i));
    match spec_child(nodes, i, table.body) {
        Some(b) => {
            crate::tree::lemma_first_child(nodes, i, table.body, nodes.len() as int);
            assert(node_wf(nodes, b));
            lemma_methods_within(nodes, bytes, table, b, nodes.len() as int);
        },
        None => {},
    }
}

/// Every class that the walk lists is in order, its methods within its lines.
pub proof fn lemma_classes_wf(nodes: Seq<SyntaxNode>, bytes: Seq<u8>, table: TableModel, k: int)
    requires
        tree_wf(nodes),
        0 <= k <= nodes.len(),
    ensures
        forall|i: int|
            0 <= i < spec_classes(nodes, bytes, table, k).len() ==> (#[trigger] spec_classes(
                nodes,
                bytes,
                table,
                k,
            )[i]).wf(),
    decreases k,
{
    if k > 0 {
        lemma_classes_wf(nodes, bytes, table, k - 1);
        lemma_class_wf(nodes, bytes, table, k - 1);
        let all = spec_classes(nodes, bytes, table, k);
        let before = spec_classes(nodes, bytes, table, k - 1);
        assert forall|i: int| 0 <= i < all.len() implies (#[trigger] all[i]).wf() by {
            if i < before.len() {
                assert(all[i] == before[i]);
            }
        }
    }
}

/// Whether class records come in the order of the lines they begin on.
pub open spec fn classes_sorted(v: Seq<ClassModel>) -> bool {
    forall|i: int, j: int|
        0 <= i <= j < v.len() ==> (#[trigger] v[i]).start_line <= (#[trigger] v[j]).start_line
}

/// The classes that the walk lists come in the order of the lines they
/// begin on, none after the line of the last node read.
pub proof fn lemma_classes_sorted(nodes: Seq<SyntaxNode>, bytes: Seq<u8>, table: TableModel, k: int)
    requires
        tree_wf(nodes),
        0 <= k <= nodes.len(),
    ensures
        classes_sorted(spec_classes(nodes, bytes, table, k)),
        forall|i: int|
            0 <= i < spec_classes(nodes, bytes, table, k).len() ==> (#[trigger] spec_classes(
                nodes,
                bytes,
                table,
                k,
            )[i]).start_line <= nodes[k - 1].location.start_row + 1,
    decreases k,
{
    if k > 0 {
        lemma_classes_sorted(nodes, bytes, table, k - 1);
        let all = spec_classes(nodes, bytes, table, k);
        let before = spec_classes(nodes, bytes, table, k - 1);
        if k > 1 {
            lemma_document_order(nodes, k - 2, k - 1);
        }
        assert forall|i: int| 0 <= i < all.len() implies (#[trigger] all[i]).start_line
            <= nodes[k - 1].location.start_row + 1 by {
            if i < before.len() {
                assert(all[i] == before[i]);
            }
        }
        assert forall|i: int, j: int| 0 <= i <= j < all.len() implies (#[trigger] all[i]).start_line
            <= (#[trigger] all[j]).start_line by {
            if j < before.len() {
                assert(all[i] == before[i]);
                assert(all[j] == before[j]);
            } else if i < before.len() {
                assert(all[i] == before[i]);
            }
        }
    }
}

/// As `lemma_parameter_names_range`, of the methods of a body.
proof fn lemma_methods_range(
    nodes: Seq<SyntaxNode>,
    bytes: Seq<u8>,
    table: TableModel,
    extents: Seq<usize>,
    b: int,
    k: int,
)
    requires
        tree_wf(nodes),
        spec_extents(extents, nodes),
        0 <= b < nodes.len(),
        0 <= k <= nodes.len(),
    ensures
        k <= b + 1 ==> spec_methods(nodes, bytes, table, b, k) == Seq::<FunctionModel>::empty(),
        k >= extents[b] ==> spec_methods(nodes, bytes, table, b, k) == spec_methods(
            nodes,
            bytes,
            table,
            b,
            extents[b] as int,
        ),
    decreases k,
{
    if k > 0 {
        lemma_methods_range(nodes, bytes, table, extents, b, k - 1);
        let j = k - 1;
        assert(node_wf(nodes, j));
        if j >= 1 && nodes[j].parent == b {
            assert(spec_within(nodes, b, j)) by {
                assert(spec_within(nodes, b, b));
            }
            lemma_within_extent(nodes, extents, b, j);
        }
    }
}

fn methods_of(
    tree: &SyntaxTree,
    source: &str,
    table: &ClassificationTable,
    o: &Outline,
    b: usize,
) -> (r: Vec<FunctionInfo>)
    requires
        tree.wf(),
        o.matches(tree@, table@),
        b < tree@.len(),
    ensures
        functions_model(r@) == spec_methods(
            tree@,
            text_bytes(source@),
            table@,
            b as int,
            tree@.len() as int,
        ),
{
    let end = o.extents[b];
    let mut r: Vec<FunctionInfo> = Vec::new();
    let mut k: usize = b + 1;
    proof {
        lemma_methods_range(tree@, text_bytes(source@), table@, o.extents@, b as int, b + 1);
        lemma_methods_range(
            tree@,
            text_bytes(source@),
            table@,
            o.extents@,
            b as int,
            tree@.len() as int,
        );
        assert(functions_model(r@) =~= Seq::<FunctionModel>::empty());
    }
    while k < end
        invariant
            b < k <= end <= tree@.len(),
            tree.wf(),
            o.matches(tree@, table@),
            functions_model(r@) == spec_methods(
                tree@,
                text_bytes(source@),
                table@,
                b as int,
                k as int,
            ),
        decreases end - k,
    {
        if tree.node(k).parent == b {
            if let NodeClass::FunctionLike = o.classes[k] {
                if let Some(f) = extract_function_info(tree, source, table, o, k) {
                    let ghost before = r@;
                    let ghost model = f@;
                    r.push(f);
                    assert(functions_model(r@) =~= functions_model(before).push(model));
                }
            }
        }
        k = k + 1;
    }
    r
}

/// The record of the class at `i`, or `None` where it has no name that can
/// be read.
pub fn extract_class_info(
    tree: &SyntaxTree,
    source: &str,
    table: &ClassificationTable,
    o: &Outline,
    i: usize,
) -> (r: Option<ClassInfo>)
    requires
        tree.wf(),
        o.matches(tree@, table@),
        i < tree@.len(),
    ensures
        match r {
            Some(c) => spec_class_at(tree@, text_bytes(source@), table@, i as int) == Some(c@),
            None => spec_class_at(tree@, text_bytes(source@), table@, i as int) is None,
        },
{
    let node = tree.node(i);
    assert(node_wf(tree@, i as int));
    let name_at = match o.names[i] {
        Some(n) => n,
        None => {
            return None;
        },
    };
    let name = match node_text(source, tree.node(name_at)) {
        Some(s) => s,
        None => {
            return None;
        },
    };
    let head = match o.bodies[i] {
        Some(b) => b,
        None => tree.len(),
    };
    let extends = match first_picked(tree, &o.extents, i, &table.superclass, i + 1, head) {
        Some(c) => {
            let names = names_under(
                tree,
                source,
                o,
                &table.type_name_kinds,
                c,
                &table.name,
                &o.names,
            );
            if names.len() > 0 {
                assert(texts_model(names@)[0] == text_bytes(names@[0]@));
                Some(names[0].clone())
            } else {
                None
            }
        },
        None => None,
    };
    let implements = match first_picked(tree, &o.extents, i, &table.interfaces, i + 1, head) {
        Some(c) => {
            let list = match first_picked(
                tree,
                &o.extents,
                c,
                &table.interface_list,
                c,
                tree.len(),
            ) {
                Some(l) => l,
                None => c,
            };
            names_under(tree, source, o, &table.type_name_kinds, list, &table.name, &o.names)
        },
        None => {
            let v: Vec<String> = Vec::new();
            assert(texts_model(v@) =~= Seq::<Seq<u8>>::empty());
            v
        },
    };
    let methods = match o.bodies[i] {
        Some(b) => methods_of(tree, source, table, o, b),
        None => {
            let v: Vec<FunctionInfo> = Vec::new();
            assert(functions_model(v@) =~= Seq::<FunctionModel>::empty());
            v
        },
    };
    Some(
        ClassInfo {
            name,
            extends,
            implements,
            methods,
            start_line: node.location.start_row + 1,
            end_line: node.location.end_row + 1,
        },
    )
}

/// The classes of a tree whose outline is at hand.
pub fn classes_with(
    tree: &SyntaxTree,
    source: &str,
    table: &ClassificationTable,
    o: &Outline,
) -> (r: Vec<ClassInfo>)
    requires
        tree.wf(),
        o.matches(tree@, table@),
    ensures
        classes_model(r@) == spec_classes(tree@, text_bytes(source@), table@, tree@.len() as int),
{
    let n = tree.len();
    let mut r: Vec<ClassInfo> = Vec::new();
    let mut k: usize = 0;
    assert(classes_model(r@) =~= Seq::<ClassModel>::empty());
    while k < n
        invariant
            k <= n,
            n == tree@.len(),
            tree.wf(),
            o.matches(tree@, table@),
            classes_model(r@) == spec_classes(tree@, text_bytes(source@), table@, k as int),
        decreases n - k,
    {
        if o.visited[k] {
            if let NodeClass::ClassLike = o.classes[k] {
                if let Some(c) = extract_class_info(tree, source, table, o, k) {
                    let ghost before = r@;
                    let ghost model = c@;
                    r.push(c);
                    assert(classes_model(r@) =~= classes_model(before).push(model));
                }
            }
        }
        k = k + 1;
    }
    r
}

/// Extract all classes from the tree, in document order: every class-like
/// node that the walk reaches and that has a readable name, with the
/// function-like children of its body as its methods. A class nested in the
/// body of another follows it as an entry of its own.
pub fn extract_classes(tree: &SyntaxTree, source: &str, table: &ClassificationTable) -> (r: Vec<
    ClassInfo,
>)
    requires
        tree.wf(),
    ensures
        classes_model(r@) == spec_classes(tree@, text_bytes(source@), table@, tree@.len() as int),
        forall|i: int| 0 <= i < r@.len() ==> (#[trigger] r@[i])@.wf(),
        classes_sorted(classes_model(r@)),
{
    let o = outline(tree, table);
    let r = classes_with(tree, source, table, &o);
    proof {
        lemma_classes_sorted(tree@, text_bytes(source@), table@, tree@.len() as int);
        lemma_classes_wf(tree@, text_bytes(source@), table@, tree@.len() as int);
        assert forall|i: int| 0 <= i < r@.len() implies (#[trigger] r@[i])@.wf() by {
            assert(classes_model(r@)[i] == r@[i]@);
        }
    }
    r
}

/// The texts, among the first `k` nodes, of the nodes within the node at
/// `p` that `label` picks, in document order.
pub open spec fn spec_labelled_texts(
    nodes: Seq<SyntaxNode>,
    bytes: Seq<u8>,
    p: int,
    label: Seq<char>,
    k: int,
) -> Seq<Seq<u8>>
    decreases k,
{
    if k <= 0 {
        Seq::empty()
    } else {
        let before = spec_labelled_texts(nodes, bytes, p, label, k - 1);
        let j = k - 1;
        if j > p && spec_within(nodes, p, j) && spec_locates(nodes[j], label) {
            before.push(spec_text_or_empty(bytes, nodes[j]))
        } else {
            before
        }
    }
}

/// The record of the import at `i`. Its source is the text of the first node
/// within it that the import-source labels pick, or of the whole import
/// where they pick none;
/// its names are the texts of the nodes within it that the import-name label
/// picks.
pub open spec fn spec_import_at(
    nodes: Seq<SyntaxNode>,
    bytes: Seq<u8>,
    table: TableModel,
    i: int,
) -> ImportModel {
    ImportModel {
        source: match spec_first_picked(
            nodes,
            i,
            table.import_source,
            i + 1,
            nodes.len() as int,
        ) {
            Some(c) => spec_text_or_empty(bytes, nodes[c]),
            None => spec_text_or_empty(bytes, nodes[i]),
        },
        imported_names: spec_labelled_texts(
            nodes,
            bytes,
            i,
            table.import_name,
            nodes.len() as int,
        ),
        is_type_only: spec_child(nodes, i, table.type_only_marker) is Some,
        location: nodes[i].location,
    }
}

/// The imports found among the first `k` nodes, in document order: one for
/// every import-like node that the walk reaches.
pub open spec fn spec_imports(
    nodes: Seq<SyntaxNode>,
    bytes: Seq<u8>,
    table: TableModel,
    k: int,
) -> Seq<ImportModel>
    decreases k,
{
    if k <= 0 {
        Seq::empty()
    } else {
        let before = spec_imports(nodes, bytes, table, k - 1);
        let j = k - 1;
        if spec_visited(nodes, table, j) && spec_node_class(table, nodes[j]) is ImportLike {
            before.push(spec_import_at(nodes, bytes, table, j))
        } else {
            before
        }
    }
}

/// Nothing within a node stands at or after its extent: what is found up
/// to any position past the extent is what is found up to the extent.
proof fn lemma_labelled_texts_range(
    nodes: Seq<SyntaxNode>,
    bytes: Seq<u8>,
    extents: Seq<usize>,
    p: int,
    label: Seq<char>,
    k: int,
)
    requires
        tree_wf(nodes),
        spec_extents(extents, nodes),
        0 <= p < nodes.len(),
        0 <= k <= nodes.len(),
    ensures
        k <= p + 1 ==> spec_labelled_texts(nodes, bytes, p, label, k) == Seq::<Seq<u8>>::empty(),
        k >= extents[p] ==> spec_labelled_texts(nodes, bytes, p, label, k) == spec_labelled_texts(
            nodes,
            bytes,
            p,
            label,
            extents[p] as int,
        ),
    decreases k,
{
    if k > 0 {
        lemma_labelled_texts_range(nodes, bytes, extents, p, label, k - 1);
        let j = k - 1;
        if j > p && spec_within(nodes, p, j) {
            lemma_within_extent(nodes, extents, p, j);
        }
    }
}

fn labelled_texts(tree: &SyntaxTree, source: &str, o: &Outline, p: usize, label: &String) -> (r:
    Vec<String>)
    requires
        tree.wf(),
        spec_extents(o.extents@, tree@),
        p < tree@.len(),
    ensures
        texts_model(r@) == spec_labelled_texts(
            tree@,
            text_bytes(source@),
            p as int,
            label@,
            tree@.len() as int,
        ),
{
    let end = o.extents[p];
    let mut r: Vec<String> = Vec::new();
    let mut inside: Vec<bool> = Vec::new();
    inside.push(true);
    let mut k: usize = p + 1;
    proof {
        lemma_labelled_texts_range(tree@, text_bytes(source@), o.extents@, p as int, label@, p + 1);
        lemma_labelled_texts_range(
            tree@,
            text_bytes(source@),
            o.extents@,
            p as int,
            label@,
            tree@.len() as int,
        );
        assert(texts_model(r@) =~= Seq::<Seq<u8>>::empty());
    }
    while k < end
        invariant
            p < k <= end <= tree@.len(),
            tree.wf(),
            inside@.len() == k - p,
            forall|i: int|
                0 <= i < inside@.len() ==> #[trigger] inside@[i] == spec_within(
                    tree@,
                    p as int,
                    p + i,
                ),
            texts_model(r@) == spec_labelled_texts(
                tree@,
                text_bytes(source@),
                p as int,
                label@,
                k as int,
            ),
        decreases end - k,
    {
        let node = tree.node(k);
        assert(node_wf(tree@, k as int));
        let within = node.parent >= p && inside[node.parent - p];
        assert(within == spec_within(tree@, p as int, k as int)) by {
            reveal_with_fuel(spec_within, 2);
            if node.parent >= p {
                assert(p + (node.parent - p) == node.parent);
                assert(inside@[node.parent - p] == spec_within(
                    tree@,
                    p as int,
                    node.parent as int,
                ));
            }
        }
        if within && locates(node, label) {
            let s = node_text_or_empty(source, node);
            let ghost before = r@;
            r.push(s);
            assert(texts_model(r@) =~= texts_model(before).push(text_bytes(s@)));
        }
        inside.push(within);
        k = k + 1;
    }
    r
}

/// The imports of a tree whose outline is at hand.
pub fn imports_with(
    tree: &SyntaxTree,
    source: &str,
    table: &ClassificationTable,
    o: &Outline,
) -> (r: Vec<ImportInfo>)
    requires
        tree.wf(),
        o.matches(tree@, table@),
    ensures
        imports_model(r@) == spec_imports(tree@, text_bytes(source@), table@, tree@.len() as int),
        forall|i: int| 0 <= i < r@.len() ==> (#[trigger] r@[i]).location.ordered(),
{
    let n = tree.len();
    let mut r: Vec<ImportInfo> = Vec::new();
    let mut k: usize = 0;
    assert(imports_model(r@) =~= Seq::<ImportModel>::empty());
    while k < n
        invariant
            k <= n,
            n == tree@.len(),
            tree.wf(),
            o.matches(tree@, table@),
            imports_model(r@) == spec_imports(tree@, text_bytes(source@), table@, k as int),
            forall|i: int| 0 <= i < r@.len() ==> (#[trigger] r@[i]).location.ordered(),
        decreases n - k,
    {
        if o.visited[k] {
            if let NodeClass::ImportLike = o.classes[k] {
                let node = tree.node(k);
                assert(node_wf(tree@, k as int));
                let import = ImportInfo {
                    source: match first_picked(
                        tree,
                        &o.extents,
                        k,
                        &table.import_source,
                        k + 1,
                        n,
                    ) {
                        Some(c) => node_text_or_empty(source, tree.node(c)),
                        None => node_text_or_empty(source, node),
                    },
                    imported_names: labelled_texts(tree, source, o, k, &table.import_name),
                    is_type_only: o.type_only_markers[k].is_some(),
                    location: node.location,
                };
                let ghost before = r@;
                let ghost model = import@;
                r.push(import);
                assert(imports_model(r@) =~= imports_model(before).push(model));
            }
        }
        k = k + 1;
    }
    r
}

/// Extract all imports from the tree, in document order: one for every
/// import-like node that the walk reaches. No import begins after it ends.
pub fn extract_imports(tree: &SyntaxTree, source: &str, table: &ClassificationTable) -> (r: Vec<
    ImportInfo,
>)
    requires
        tree.wf(),
    ensures
        imports_model(r@) == spec_imports(tree@, text_bytes(source@), table@, tree@.len() as int),
        forall|i: int| 0 <= i < r@.len() ==> (#[trigger] r@[i]).location.ordered(),
{
    let o = outline(tree, table);
    imports_with(tree, source, table, &o)
}

/// The record of the syntax error at a node.
pub open spec fn spec_error_at(bytes: Seq<u8>, node: SyntaxNode) -> ErrorModel {
    ErrorModel {
        message: "Syntax error"@,
        location: node.location,
        text: spec_text_or_empty(bytes, node),
    }
}

/// The syntax errors found among the first `k` nodes, in document order: one
/// for every node that is an error or was put in to recover from one,
/// whether or not it lies within another.
pub open spec fn spec_errors(nodes: Seq<SyntaxNode>, bytes: Seq<u8>, k: int) -> Seq<ErrorModel>
    decreases k,
{
    if k <= 0 {
        Seq::empty()
    } else {
        let before = spec_errors(nodes, bytes, k - 1);
        let node = nodes[k - 1];
        if node.error || node.missing {
            before.push(spec_error_at(bytes, node))
        } else {
            before
        }
    }
}

/// Whether error records come in the order of the places they begin at.
pub open spec fn errors_sorted(v: Seq<ErrorModel>) -> bool {
    forall|i: int, j: int|
        0 <= i <= j < v.len() ==> (#[trigger] v[i]).location.begins_by((#[trigger] v[j]).location)
}

/// The syntax errors that are listed come in the order of the places they
/// begin at, none after the place of the last node read.
pub proof fn lemma_errors_sorted(nodes: Seq<SyntaxNode>, bytes: Seq<u8>, k: int)
    requires
        tree_wf(nodes),
        0 <= k <= nodes.len(),
    ensures
        errors_sorted(spec_errors(nodes, bytes, k)),
        forall|i: int|
            0 <= i < spec_errors(nodes, bytes, k).len() ==> (#[trigger] spec_errors(
                nodes,
                bytes,
                k,
            )[i]).location.begins_by(nodes[k - 1].location),
    decreases k,
{
    if k > 0 {
        lemma_errors_sorted(nodes, bytes, k - 1);
        let all = spec_errors(nodes, bytes, k);
        let before = spec_errors(nodes, bytes, k - 1);
        if k > 1 {
            lemma_document_order(nodes, k - 2, k - 1);
        }
        assert forall|i: int| 0 <= i < all.len() implies (#[trigger] all[i]).location.begins_by(
            nodes[k - 1].location,
        ) by {
            if i < before.len() {
                assert(all[i] == before[i]);
            }
        }
        assert forall|i: int, j: int| 0 <= i <= j < all.len() implies (#[trigger] all[i]).location.begins_by(
            (#[trigger] all[j]).location,
        ) by {
            if j < before.len() {
                assert(all[i] == before[i]);
                assert(all[j] == before[j]);
            } else if i < before.len() {
                assert(all[i] == before[i]);
            }
        }
    }
}

/// Find all error nodes in the tree, in document order: none is listed
/// before one that begins at an earlier place. No error begins after it ends.
pub fn find_error_nodes(tree: &SyntaxTree, source: &str) -> (r: Vec<ErrorNode>)
    requires
        tree.wf(),
    ensures
        errors_model(r@) == spec_errors(tree@, text_bytes(source@), tree@.len() as int),
        forall|i: int| 0 <= i < r@.len() ==> (#[trigger] r@[i]).location.ordered(),
        errors_sorted(errors_model(r@)),
{
    proof {
        lemma_errors_sorted(tree@, text_bytes(source@), tree@.len() as int);
    }
    let n = tree.len();
    let mut r: Vec<ErrorNode> = Vec::new();
    let mut k: usize = 0;
    assert(errors_model(r@) =~= Seq::<ErrorModel>::empty());
    while k < n
        invariant
            k <= n,
            n == tree@.len(),
            tree.wf(),
            errors_model(r@) == spec_errors(tree@, text_bytes(source@), k as int),
            forall|i: int| 0 <= i < r@.len() ==> (#[trigger] r@[i]).location.ordered(),
        decreases n - k,
    {
        let node = tree.node(k);
        assert(node_wf(tree@, k as int));
        if node.error || node.missing {
            let error = ErrorNode {
                message: String::from_str("Syntax error"),
                location: node.location,
                text: node_text_or_empty(source, node),
            };
            let ghost before = r@;
            let ghost model = error@;
            r.push(error);
            assert(errors_model(r@) =~= errors_model(before).push(model));
        }
        k = k + 1;
    }
    r
}

} // verus!
