//! Finds, for a span of lines, which imported names the code on those lines
//! refers to.

use crate::extractor::{spec_node_class, Outline};
use crate::grammar::{ClassificationTable, NodeClass, TableModel};
use crate::plan::as_ints;
use crate::text::text_bytes;
use crate::tree::{node_wf, SyntaxNode, SyntaxTree};
use crate::types::{imports_model, texts_model, ImportInfo, ImportModel};
use vstd::prelude::*;
use vstd::string::*;

verus! {

/// Whether the node at `j`, or a node that it lies in, is import-like.
pub open spec fn spec_in_import(nodes: Seq<SyntaxNode>, table: TableModel, j: int) -> bool
    decreases j,
{
    spec_node_class(table, nodes[j]) is ImportLike || (0 <= nodes[j].parent < j && spec_in_import(
        nodes,
        table,
        nodes[j].parent as int,
    ))
}

/// Whether the bytes that a node spans are exactly `name`.
pub open spec fn spec_spells(bytes: Seq<u8>, node: SyntaxNode, name: Seq<u8>) -> bool {
    node.start_byte <= node.end_byte <= bytes.len() && bytes.subrange(
        node.start_byte as int,
        node.end_byte as int,
    ) == name
}

/// Whether the node at `j` refers to `name`: it spells the name and lies in
/// no import.
pub open spec fn spec_refers(
    nodes: Seq<SyntaxNode>,
    bytes: Seq<u8>,
    table: TableModel,
    j: int,
    name: Seq<u8>,
) -> bool {
    !spec_in_import(nodes, table, j) && spec_spells(bytes, nodes[j], name)
}

/// The lines, counted from one, on which the first `k` nodes refer to
/// `name`: one entry for each node that does, the line it begins on.
pub open spec fn spec_reference_lines(
    nodes: Seq<SyntaxNode>,
    bytes: Seq<u8>,
    table: TableModel,
    name: Seq<u8>,
    k: int,
) -> Seq<int>
    decreases k,
{
    if k <= 0 {
        Seq::empty()
    } else {
        let before = spec_reference_lines(nodes, bytes, table, name, k - 1);
        if spec_refers(nodes, bytes, table, k - 1, name) {
            before.push(nodes[k - 1].location.start_row + 1)
        } else {
            before
        }
    }
}

/// Whether one of `lines` is one of the lines `first..=last`.
pub open spec fn spec_any_between(lines: Seq<int>, first: int, last: int) -> bool {
    exists|i: int| 0 <= i < lines.len() && first <= #[trigger] lines[i] <= last
}

/// Whether the code on the lines `first..=last` refers to `name`.
pub open spec fn spec_used_in(
    nodes: Seq<SyntaxNode>,
    bytes: Seq<u8>,
    table: TableModel,
    name: Seq<u8>,
    first: int,
    last: int,
) -> bool {
    spec_any_between(
        spec_reference_lines(nodes, bytes, table, name, nodes.len() as int),
        first,
        last,
    )
}

/// The names that the first `k` imports bring in, in order.
pub open spec fn spec_import_names(imports: Seq<ImportModel>, k: int) -> Seq<Seq<u8>>
    decreases k,
{
    if k <= 0 {
        Seq::empty()
    } else {
        spec_import_names(imports, k - 1) + imports[k - 1].imported_names
    }
}

/// Of the first `k` names, those that the code on the lines `first..=last`
/// refers to, each once, in the order of the names.
pub open spec fn spec_dependencies(
    nodes: Seq<SyntaxNode>,
    bytes: Seq<u8>,
    table: TableModel,
    names: Seq<Seq<u8>>,
    first: int,
    last: int,
    k: int,
) -> Seq<Seq<u8>>
    decreases k,
{
    if k <= 0 {
        Seq::empty()
    } else {
        let before = spec_dependencies(nodes, bytes, table, names, first, last, k - 1);
        let name = names[k - 1];
        if !before.contains(name) && spec_used_in(nodes, bytes, table, name, first, last) {
            before.push(name)
        } else {
            before
        }
    }
}

/// The names that imports bring in, in order.
pub fn import_names(imports: &Vec<ImportInfo>) -> (r: Vec<String>)
    ensures
        texts_model(r@) == spec_import_names(imports_model(imports@), imports@.len() as int),
{
    let mut r: Vec<String> = Vec::new();
    let mut k: usize = 0;
    assert(texts_model(r@) =~= Seq::<Seq<u8>>::empty());
    while k < imports.len()
        invariant
            k <= imports@.len(),
            texts_model(r@) == spec_import_names(imports_model(imports@), k as int),
        decreases imports@.len() - k,
    {
        let names = &imports[k].imported_names;
        let ghost start = r@;
        let mut i: usize = 0;
        while i < names.len()
            invariant
                i <= names@.len(),
                names == &imports@[k as int].imported_names,
                texts_model(r@) == texts_model(start) + texts_model(names@).take(i as int),
            decreases names@.len() - i,
        {
            let ghost sofar = r@;
            r.push(names[i].clone());
            assert(texts_model(r@) =~= texts_model(sofar).push(text_bytes(names@[i as int]@)));
            assert(texts_model(names@).take(i + 1) =~= texts_model(names@).take(i as int).push(
                text_bytes(names@[i as int]@),
            ));
            i = i + 1;
        }
        assert(texts_model(names@).take(names@.len() as int) =~= texts_model(names@));
        assert(imports_model(imports@)[k as int].imported_names == texts_model(names@));
        k = k + 1;
    }
    r
}

/// For every node, whether it or a node that it lies in is import-like.
pub fn in_import_flags(tree: &SyntaxTree, table: &ClassificationTable, o: &Outline) -> (r: Vec<bool>)
    requires
        tree.wf(),
        o.matches(tree@, table@),
    ensures
        r@.len() == tree@.len(),
        forall|j: int| 0 <= j < r@.len() ==> #[trigger] r@[j] == spec_in_import(tree@, table@, j),
{
    let n = tree.len();
    let mut r: Vec<bool> = Vec::new();
    let mut j: usize = 0;
    while j < n
        invariant
            j <= n,
            n == tree@.len(),
            tree.wf(),
            o.matches(tree@, table@),
            r@.len() == j,
            forall|k: int| 0 <= k < j ==> #[trigger] r@[k] == spec_in_import(tree@, table@, k),
        decreases n - j,
    {
        let node = tree.node(j);
        assert(node_wf(tree@, j as int));
        let own = match o.classes[j] {
            NodeClass::ImportLike => true,
            _ => false,
        };
        let flag = own || (j > 0 && r[node.parent]);
        r.push(flag);
        j = j + 1;
    }
    r
}

/// Whether the bytes that a node spans are exactly `name`.
pub fn spells(bytes: &[u8], node: &SyntaxNode, name: &[u8]) -> (r: bool)
    ensures
        r == spec_spells(bytes@, *node, name@),
{
    let start = node.start_byte;
    let end = node.end_byte;
    if start > end || end > bytes.len() || end - start != name.len() {
        return false;
    }
    let mut i: usize = 0;
    while i < name.len()
        invariant
            i <= name@.len(),
            start == node.start_byte,
            end == node.end_byte,
            start <= end <= bytes@.len(),
            end - start == name@.len(),
            forall|k: int| 0 <= k < i ==> bytes@[start + k] == name@[k],
        decreases name@.len() - i,
    {
        if bytes[start + i] != name[i] {
            proof {
                let spelled = bytes@.subrange(node.start_byte as int, node.end_byte as int);
                assert(spelled[i as int] == bytes@[start + i]);
            }
            return false;
        }
        i = i + 1;
    }
    assert(bytes@.subrange(start as int, end as int) =~= name@);
    true
}

/// The lines on which the nodes of a tree refer to `name`, given for every
/// node whether it lies in an import.
pub fn reference_lines(
    tree: &SyntaxTree,
    source: &str,
    table: &ClassificationTable,
    flags: &Vec<bool>,
    name: &String,
) -> (r: Vec<usize>)
    requires
        tree.wf(),
        flags@.len() == tree@.len(),
        forall|j: int|
            0 <= j < flags@.len() ==> #[trigger] flags@[j] == spec_in_import(tree@, table@, j),
    ensures
        as_ints(r@) == spec_reference_lines(
            tree@,
            text_bytes(source@),
            table@,
            text_bytes(name@),
            tree@.len() as int,
        ),
{
    let n = tree.len();
    let bytes = source.as_bytes();
    let wanted = name.as_str().as_bytes();
    let mut r: Vec<usize> = Vec::new();
    let mut k: usize = 0;
    assert(as_ints(r@) =~= Seq::<int>::empty());
    while k < n
        invariant
            k <= n,
            n == tree@.len(),
            tree.wf(),
            flags@.len() == n,
            forall|j: int|
                0 <= j < flags@.len() ==> #[trigger] flags@[j] == spec_in_import(tree@, table@, j),
            bytes@ == text_bytes(source@),
            wanted@ == text_bytes(name@),
            as_ints(r@) == spec_reference_lines(
                tree@,
                text_bytes(source@),
                table@,
                text_bytes(name@),
                k as int,
            ),
        decreases n - k,
    {
        let node = tree.node(k);
        assert(node_wf(tree@, k as int));
        if !flags[k] && spells(bytes, node, wanted) {
            let ghost before = r@;
            r.push(node.location.start_row + 1);
            assert(as_ints(r@) =~= as_ints(before).push(node.location.start_row + 1));
        }
        k = k + 1;
    }
    r
}

/// Whether one of `lines` is one of the lines `first..=last`.
pub fn any_between(lines: &Vec<usize>, first: usize, last: usize) -> (r: bool)
    ensures
        r == spec_any_between(as_ints(lines@), first as int, last as int),
{
    let mut i: usize = 0;
    while i < lines.len()
        invariant
            i <= lines@.len(),
            forall|k: int| 0 <= k < i ==> !(first <= #[trigger] as_ints(lines@)[k] <= last),
        decreases lines@.len() - i,
    {
        if first <= lines[i] && lines[i] <= last {
            assert(first <= as_ints(lines@)[i as int] <= last);
            return true;
        }
        i = i + 1;
    }
    false
}

/// Whether a list of texts holds a text.
pub fn holds_text(list: &Vec<String>, text: &String) -> (r: bool)
    ensures
        r == texts_model(list@).contains(text_bytes(text@)),
{
    let mut i: usize = 0;
    while i < list.len()
        invariant
            i <= list@.len(),
            forall|k: int| 0 <= k < i ==> texts_model(list@)[k] != text_bytes(text@),
        decreases list@.len() - i,
    {
        proof {
            vstd::utf8::encode_utf8_decode_utf8(list@[i as int]@);
            vstd::utf8::encode_utf8_decode_utf8(text@);
        }
        if list[i] == *text {
            assert(texts_model(list@)[i as int] == text_bytes(text@));
            return true;
        }
        i = i + 1;
    }
    false
}

/// Whether `lines` holds, for each name, the lines on which the tree refers
/// to it.
pub open spec fn spec_references(
    lines: Seq<Vec<usize>>,
    nodes: Seq<SyntaxNode>,
    bytes: Seq<u8>,
    table: TableModel,
    names: Seq<Seq<u8>>,
) -> bool {
    &&& lines.len() == names.len()
    &&& forall|i: int|
        0 <= i < names.len() ==> as_ints((#[trigger] lines[i])@) == spec_reference_lines(
            nodes,
            bytes,
            table,
            names[i],
            nodes.len() as int,
        )
}

/// For each name, the lines on which the tree refers to it.
pub fn all_reference_lines(
    tree: &SyntaxTree,
    source: &str,
    table: &ClassificationTable,
    o: &Outline,
    names: &Vec<String>,
) -> (r: Vec<Vec<usize>>)
    requires
        tree.wf(),
        o.matches(tree@, table@),
    ensures
        spec_references(r@, tree@, text_bytes(source@), table@, texts_model(names@)),
{
    let flags = in_import_flags(tree, table, o);
    let mut r: Vec<Vec<usize>> = Vec::new();
    let mut i: usize = 0;
    while i < names.len()
        invariant
            i <= names@.len(),
            tree.wf(),
            flags@.len() == tree@.len(),
            forall|j: int|
                0 <= j < flags@.len() ==> #[trigger] flags@[j] == spec_in_import(tree@, table@, j),
            r@.len() == i,
            forall|k: int|
                0 <= k < i ==> as_ints((#[trigger] r@[k])@) == spec_reference_lines(
                    tree@,
                    text_bytes(source@),
                    table@,
                    texts_model(names@)[k],
                    tree@.len() as int,
                ),
        decreases names@.len() - i,
    {
        let lines = reference_lines(tree, source, table, &flags, &names[i]);
        r.push(lines);
        i = i + 1;
    }
    r
}

/// Of the names, those that the code on the lines `first..=last` refers to,
/// each once, in the order of the names.
pub fn dependencies_in(
    names: &Vec<String>,
    lines: &Vec<Vec<usize>>,
    first: usize,
    last: usize,
    tree: &SyntaxTree,
    source: &str,
    table: &ClassificationTable,
) -> (r: Vec<String>)
    requires
        spec_references(lines@, tree@, text_bytes(source@), table@, texts_model(names@)),
    ensures
        texts_model(r@) == spec_dependencies(
            tree@,
            text_bytes(source@),
            table@,
            texts_model(names@),
            first as int,
            last as int,
            names@.len() as int,
        ),
{
    let mut r: Vec<String> = Vec::new();
    let mut k: usize = 0;
    assert(texts_model(r@) =~= Seq::<Seq<u8>>::empty());
    while k < names.len()
        invariant
            k <= names@.len(),
            spec_references(lines@, tree@, text_bytes(source@), table@, texts_model(names@)),
            texts_model(r@) == spec_dependencies(
                tree@,
                text_bytes(source@),
                table@,
                texts_model(names@),
                first as int,
                last as int,
                k as int,
            ),
        decreases names@.len() - k,
    {
        assert(texts_model(names@)[k as int] == text_bytes(names@[k as int]@));
        if !holds_text(&r, &names[k]) && any_between(&lines[k], first, last) {
            let ghost before = r@;
            r.push(names[k].clone());
            assert(texts_model(r@) =~= texts_model(before).push(text_bytes(names@[k as int]@)));
        }
        k = k + 1;
    }
    r
}

} // verus!
