//! What holds of every size tree and of every metafile made from one.

use vstd::prelude::*;
use crate::analyzer::{lemma_bag_totals, total_bytes, FileEntryView};
use crate::bag::{bag, lemma_bag_has, lemma_bag_len, lemma_bag_member, lemma_bag_peel};
use crate::output::metafile::{joined, edges, flatten, flatten_children, full_path, tree_inputs, NodeModel};
use crate::output::tree::{
    add_path, build, child_index, empty_root, fresh, lemma_child_index, segments, with_child,
    TreeModel,
};
use crate::text::{lemma_split_join, replaced};

verus! {

/// The sum of the totals of the children.
pub open spec fn sum_totals(children: Seq<TreeModel>) -> nat
    decreases children.len(),
{
    if children.len() == 0 {
        0
    } else {
        sum_totals(children.drop_last()) + children.last().total
    }
}

/// Every node's total is its own size plus the totals of its children.
pub open spec fn balanced(node: TreeModel) -> bool
    decreases node,
{
    &&& node.total == node.size + sum_totals(node.children)
    &&& forall|i: int| 0 <= i < node.children.len() ==> balanced(#[trigger] node.children[i])
}

/// There is a node at the end of the chain of segments `parts` below `node`.
pub open spec fn has_path(node: TreeModel, parts: Seq<Seq<char>>) -> bool
    decreases parts.len(),
{
    parts.len() == 0 || {
        let i = child_index(node.children, parts[0]);
        i < node.children.len() && has_path(node.children[i], parts.drop_first())
    }
}

/// No record's path is the path of an earlier record or leads to one: each
/// record names a new leaf. The records of a traversal are of this kind.
pub open spec fn new_leaves(records: Seq<FileEntryView>) -> bool {
    forall|j: int, k: int|
        0 <= j < k < records.len() ==> !segments(records[k].path).is_prefix_of(
            segments(records[j].path),
        )
}

/// The sum of the sizes of the inputs.
pub open spec fn sum_bytes(inputs: Seq<(Seq<char>, NodeModel)>) -> nat
    decreases inputs.len(),
{
    if inputs.len() == 0 {
        0
    } else {
        sum_bytes(inputs.drop_last()) + inputs.last().1.bytes
    }
}

/// One of the inputs has the key.
pub open spec fn has_key(inputs: Seq<(Seq<char>, NodeModel)>, key: Seq<char>) -> bool {
    exists|k: int| 0 <= k < inputs.len() && (#[trigger] inputs[k]).0 == key
}

/// Every import edge of every input leads to one of the inputs.
pub open spec fn edges_resolve(inputs: Seq<(Seq<char>, NodeModel)>) -> bool {
    forall|i: int, j: int|
        0 <= i < inputs.len() && 0 <= j < inputs[i].1.imports.len() ==> has_key(
            inputs,
            #[trigger] inputs[i].1.imports[j],
        )
}

proof fn lemma_child_index_is(children: Seq<TreeModel>, name: Seq<char>, k: int)
    requires
        0 <= k <= children.len(),
        k < children.len() ==> children[k].name == name,
        forall|j: int| 0 <= j < k ==> children[j].name != name,
    ensures
        child_index(children, name) == k,
{
    lemma_child_index(children, name);
}

proof fn lemma_sum_totals_update(children: Seq<TreeModel>, i: int, child: TreeModel)
    requires
        0 <= i < children.len(),
    ensures
        sum_totals(children.update(i, child)) + children[i].total == sum_totals(children)
            + child.total,
        children[i].total <= sum_totals(children),
    decreases children.len(),
{
    let after = children.update(i, child);
    if i == children.len() - 1 {
        assert(after.drop_last() =~= children.drop_last());
    } else {
        lemma_sum_totals_update(children.drop_last(), i, child);
        assert(after.drop_last() =~= children.drop_last().update(i, child));
    }
}

proof fn lemma_sum_totals_push(children: Seq<TreeModel>, child: TreeModel)
    ensures
        sum_totals(children.push(child)) == sum_totals(children) + child.total,
{
    assert(children.push(child).drop_last() =~= children);
}

/// A path that exists after a file was added existed before, or leads to the
/// file.
proof fn lemma_has_path_after(node: TreeModel, parts: Seq<Seq<char>>, size: nat, p: Seq<Seq<char>>)
    requires
        parts.len() > 0,
        has_path(add_path(node, parts, size), p),
    ensures
        has_path(node, p) || p.is_prefix_of(parts),
    decreases parts.len(),
{
    if p.len() > 0 {
        let i = child_index(node.children, parts[0]);
        lemma_child_index(node.children, parts[0]);
        let before = if i < node.children.len() {
            node.children[i]
        } else {
            fresh(parts[0])
        };
        let after = if parts.len() == 1 {
            TreeModel { size, total: size, ..before }
        } else {
            add_path(before, parts.drop_first(), size)
        };
        let grown = with_child(node.children, i, after);
        assert(after.name == parts[0]);
        let at = child_index(grown, p[0]);
        lemma_child_index(grown, p[0]);
        if p[0] == parts[0] {
            lemma_child_index_is(grown, p[0], i);
            assert(has_path(after, p.drop_first()));
            if parts.len() > 1 {
                lemma_has_path_after(before, parts.drop_first(), size, p.drop_first());
            }
            if has_path(before, p.drop_first()) {
                if i >= node.children.len() {
                    assert(p.drop_first().len() == 0);
                    assert(p =~= parts.take(1));
                }
            } else {
                assert(p.drop_first().is_prefix_of(parts.drop_first()));
                assert(p =~= parts.take(p.len() as int)) by {
                    assert forall|k: int| 0 <= k < p.len() implies p[k] == parts[k] by {
                        if k > 0 {
                            assert(p.drop_first()[k - 1] == parts.drop_first()[k - 1]);
                        }
                    }
                }
            }
        } else {
            assert(at != i);
            assert(at < node.children.len());
            assert(grown[at] == node.children[at]);
            assert forall|j: int| 0 <= j < at implies node.children[j].name != p[0] by {
                if j != i {
                    assert(grown[j] == node.children[j]);
                }
            }
            lemma_child_index_is(node.children, p[0], at);
        }
    }
}

/// Adding a file at a new leaf keeps the tree balanced and raises the total
/// by the file's size, as long as the total fits in 64 bits.
proof fn lemma_add_path_balanced(node: TreeModel, parts: Seq<Seq<char>>, size: nat)
    requires
        balanced(node),
        parts.len() > 0,
        !has_path(node, parts),
        node.total + size <= u64::MAX,
    ensures
        balanced(add_path(node, parts, size)),
        add_path(node, parts, size).total == node.total + size,
        add_path(node, parts, size).size == node.size,
    decreases parts.len(),
{
    let i = child_index(node.children, parts[0]);
    lemma_child_index(node.children, parts[0]);
    let before = if i < node.children.len() {
        node.children[i]
    } else {
        fresh(parts[0])
    };
    let after = if parts.len() == 1 {
        TreeModel { size, total: size, ..before }
    } else {
        add_path(before, parts.drop_first(), size)
    };
    let grown = with_child(node.children, i, after);
    let result = add_path(node, parts, size);
    assert(result.children == grown);
    assert(sum_totals(Seq::<TreeModel>::empty()) == 0);
    if parts.len() == 1 {
        assert(parts.drop_first().len() == 0);
        if i < node.children.len() {
            assert(has_path(node.children[i], parts.drop_first()));
        }
        assert(i >= node.children.len());
        assert(after.children.len() == 0);
        assert(balanced(after));
    } else {
        if i < node.children.len() {
            lemma_sum_totals_update(node.children, i, after);
        }
        lemma_add_path_balanced(before, parts.drop_first(), size);
    }
    if i < node.children.len() {
        lemma_sum_totals_update(node.children, i, after);
    } else {
        lemma_sum_totals_push(node.children, after);
    }
    assert forall|k: int| 0 <= k < grown.len() implies balanced(#[trigger] grown[k]) by {
        if k != i {
            assert(grown[k] == node.children[k]);
        }
    }
}

/// A node that the tree of some records has lies on the path of one of them.
proof fn lemma_build_paths(records: Seq<FileEntryView>, p: Seq<Seq<char>>)
    requires
        p.len() > 0,
        has_path(build(records), p),
    ensures
        exists|j: int| 0 <= j < records.len() && p.is_prefix_of(segments(#[trigger] records[j].path)),
    decreases records.len(),
{
    if records.len() == 0 {
        assert(empty_root().children.len() == 0);
    } else {
        let parts = segments(records.last().path);
        lemma_split_join(replaced(records.last().path, '\\', '/'), '/');
        lemma_has_path_after(build(records.drop_last()), parts, records.last().size, p);
        if has_path(build(records.drop_last()), p) {
            lemma_build_paths(records.drop_last(), p);
            let j = choose|j: int|
                0 <= j < records.drop_last().len() && p.is_prefix_of(
                    segments(#[trigger] records.drop_last()[j].path),
                );
            assert(records[j] == records.drop_last()[j]);
        } else {
            let j = records.len() - 1;
            assert(p.is_prefix_of(segments(records[j].path)));
        }
    }
}

/// The tree of records that each name a new leaf is balanced, and its root's
/// total is the sum of their sizes, as long as that sum fits in 64 bits.
pub proof fn lemma_build_balanced(records: Seq<FileEntryView>)
    requires
        new_leaves(records),
        total_bytes(records) <= u64::MAX,
    ensures
        balanced(build(records)),
        build(records).total == total_bytes(records),
        build(records).size == 0,
    decreases records.len(),
{
    if records.len() == 0 {
        assert(sum_totals(empty_root().children) == 0);
    } else {
        let earlier = records.drop_last();
        let last = records.last();
        assert(new_leaves(earlier)) by {
            assert forall|j: int, k: int| 0 <= j < k < earlier.len() implies !segments(
                earlier[k].path,
            ).is_prefix_of(segments(earlier[j].path)) by {
                assert(earlier[j] == records[j] && earlier[k] == records[k]);
            }
        }
        lemma_build_balanced(earlier);
        let parts = segments(last.path);
        lemma_split_join(replaced(last.path, '\\', '/'), '/');
        if has_path(build(earlier), parts) {
            lemma_build_paths(earlier, parts);
            let j = choose|j: int|
                0 <= j < earlier.len() && parts.is_prefix_of(segments(#[trigger] earlier[j].path));
            assert(earlier[j] == records[j]);
            assert(records[records.len() - 1] == last);
            assert(false);
        }
        lemma_add_path_balanced(build(earlier), parts, last.size);
    }
}

proof fn lemma_sum_bytes_concat(a: Seq<(Seq<char>, NodeModel)>, b: Seq<(Seq<char>, NodeModel)>)
    ensures
        sum_bytes(a + b) == sum_bytes(a) + sum_bytes(b),
    decreases b.len(),
{
    if b.len() == 0 {
        assert(a + b =~= a);
    } else {
        lemma_sum_bytes_concat(a, b.drop_last());
        assert((a + b).drop_last() =~= a + b.drop_last());
    }
}

/// The sizes of the inputs of a balanced subtree add up to its total.
proof fn lemma_flatten_sum(node: TreeModel, path: Seq<char>)
    requires
        balanced(node),
    ensures
        sum_bytes(flatten(node, path)) == node.total,
    decreases node, 0nat,
{
    let own = seq![(path, NodeModel { bytes: node.size, imports: edges(path, node.children) })];
    let below = flatten_children(node.children, Some(path), node.children.len());
    lemma_flatten_children_sum(node.children, Some(path), node.children.len());
    lemma_sum_bytes_concat(own, below);
    assert(own.drop_last() =~= Seq::<(Seq<char>, NodeModel)>::empty());
    assert(sum_bytes(own.drop_last()) == 0);
    assert(own.last().1.bytes == node.size);
    assert(sum_bytes(own) == node.size);
    assert(node.children.take(node.children.len() as int) =~= node.children);
}

proof fn lemma_flatten_children_sum(children: Seq<TreeModel>, parent: Option<Seq<char>>, n: nat)
    requires
        n <= children.len(),
        forall|i: int| 0 <= i < children.len() ==> balanced(#[trigger] children[i]),
    ensures
        sum_bytes(flatten_children(children, parent, n)) == sum_totals(children.take(n as int)),
    decreases children, n,
{
    if n > 0 {
        let child = children[n - 1];
        lemma_flatten_children_sum(children, parent, (n - 1) as nat);
        lemma_flatten_sum(child, full_path(parent, child.name));
        lemma_sum_bytes_concat(
            flatten_children(children, parent, (n - 1) as nat),
            flatten(child, full_path(parent, child.name)),
        );
        assert(children.take(n as int).drop_last() =~= children.take(n - 1));
    }
}

/// The sizes of the inputs of a balanced tree whose root has no size of its
/// own add up to the root's total.
pub proof fn lemma_inputs_sum_to_total(root: TreeModel)
    requires
        balanced(root),
        root.size == 0,
    ensures
        sum_bytes(tree_inputs(root)) == root.total,
{
    lemma_flatten_children_sum(root.children, None, root.children.len());
    assert(root.children.take(root.children.len() as int) =~= root.children);
}

/// Summing the sizes of the inputs of the metafile of a list of records gives
/// the sum of the records' sizes back, for records that each name a new leaf
/// and whose sizes add up to less than 2^64.
pub proof fn lemma_metafile_round_trip(records: Seq<FileEntryView>)
    requires
        new_leaves(records),
        total_bytes(records) <= u64::MAX,
    ensures
        sum_bytes(tree_inputs(build(records))) == total_bytes(records),
        build(records).total == total_bytes(records),
{
    lemma_build_balanced(records);
    lemma_inputs_sum_to_total(build(records));
}

proof fn lemma_has_key_concat(
    a: Seq<(Seq<char>, NodeModel)>,
    b: Seq<(Seq<char>, NodeModel)>,
    key: Seq<char>,
)
    requires
        has_key(a, key) || has_key(b, key),
    ensures
        has_key(a + b, key),
{
    if has_key(a, key) {
        let k = choose|k: int| 0 <= k < a.len() && (#[trigger] a[k]).0 == key;
        assert((a + b)[k] == a[k]);
    } else {
        let k = choose|k: int| 0 <= k < b.len() && (#[trigger] b[k]).0 == key;
        assert((a + b)[a.len() + k] == b[k]);
    }
}

proof fn lemma_edges_resolve_concat(a: Seq<(Seq<char>, NodeModel)>, b: Seq<(Seq<char>, NodeModel)>)
    requires
        forall|i: int, j: int|
            0 <= i < a.len() && 0 <= j < a[i].1.imports.len() ==> has_key(a, a[i].1.imports[j])
                || has_key(b, #[trigger] a[i].1.imports[j]),
        edges_resolve(b),
    ensures
        edges_resolve(a + b),
{
    let whole = a + b;
    assert forall|i: int, j: int|
        0 <= i < whole.len() && 0 <= j < whole[i].1.imports.len() implies has_key(
        whole,
        #[trigger] whole[i].1.imports[j],
    ) by {
        if i < a.len() {
            assert(whole[i] == a[i]);
            lemma_has_key_concat(a, b, a[i].1.imports[j]);
        } else {
            assert(whole[i] == b[i - a.len()]);
            lemma_has_key_concat(a, b, b[i - a.len()].1.imports[j]);
        }
    }
}

/// In the inputs of a subtree every import edge leads to an input, and the
/// first input is the subtree's own node.
proof fn lemma_flatten_edges(node: TreeModel, path: Seq<char>)
    ensures
        edges_resolve(flatten(node, path)),
        has_key(flatten(node, path), path),
    decreases node, 0nat,
{
    let own = seq![(path, NodeModel { bytes: node.size, imports: edges(path, node.children) })];
    let below = flatten_children(node.children, Some(path), node.children.len());
    lemma_flatten_children_edges(node.children, Some(path), node.children.len());
    assert forall|i: int, j: int|
        0 <= i < own.len() && 0 <= j < own[i].1.imports.len() implies has_key(
        own,
        own[i].1.imports[j],
    ) || has_key(below, #[trigger] own[i].1.imports[j]) by {
        assert(own[i].1.imports[j] == full_path(Some(path), node.children[j].name));
    }
    lemma_edges_resolve_concat(own, below);
    assert(own[0].0 == path);
    lemma_has_key_concat(own, below, path);
}

proof fn lemma_flatten_children_edges(children: Seq<TreeModel>, parent: Option<Seq<char>>, n: nat)
    requires
        n <= children.len(),
    ensures
        edges_resolve(flatten_children(children, parent, n)),
        forall|i: int|
            0 <= i < n ==> has_key(
                flatten_children(children, parent, n),
                full_path(parent, #[trigger] children[i].name),
            ),
    decreases children, n,
{
    if n > 0 {
        let child = children[n - 1];
        let earlier = flatten_children(children, parent, (n - 1) as nat);
        let last = flatten(child, full_path(parent, child.name));
        lemma_flatten_children_edges(children, parent, (n - 1) as nat);
        lemma_flatten_edges(child, full_path(parent, child.name));
        assert(edges_resolve(earlier + last)) by {
            assert forall|i: int, j: int|
                0 <= i < (earlier + last).len() && 0 <= j < (earlier + last)[i].1.imports.len()
                implies has_key(earlier + last, #[trigger] (earlier + last)[i].1.imports[j]) by {
                if i < earlier.len() {
                    assert((earlier + last)[i] == earlier[i]);
                    lemma_has_key_concat(earlier, last, earlier[i].1.imports[j]);
                } else {
                    assert((earlier + last)[i] == last[i - earlier.len()]);
                    lemma_has_key_concat(earlier, last, last[i - earlier.len()].1.imports[j]);
                }
            }
        }
        assert forall|i: int| 0 <= i < n implies has_key(
            earlier + last,
            full_path(parent, #[trigger] children[i].name),
        ) by {
            lemma_has_key_concat(earlier, last, full_path(parent, children[i].name));
        }
    }
}

/// In the inputs of a tree every import edge leads to one of the inputs, and
/// every child of the root is among them under its name.
pub proof fn lemma_edges_resolve(root: TreeModel)
    ensures
        edges_resolve(tree_inputs(root)),
        forall|i: int|
            0 <= i < root.children.len() ==> has_key(
                tree_inputs(root),
                #[trigger] root.children[i].name,
            ),
{
    lemma_flatten_children_edges(root.children, None, root.children.len());
    assert forall|i: int| 0 <= i < root.children.len() implies has_key(
        tree_inputs(root),
        #[trigger] root.children[i].name,
    ) by {
        assert(full_path(None, root.children[i].name) == root.children[i].name);
    }
}

/// The node at the end of the chain of segments `parts` below `node`, where
/// there is one.
pub open spec fn node_at(node: TreeModel, parts: Seq<Seq<char>>) -> TreeModel
    decreases parts.len(),
{
    if parts.len() == 0 {
        node
    } else {
        node_at(node.children[child_index(node.children, parts[0])], parts.drop_first())
    }
}

/// The path of one of the records leads through the chain of segments.
pub open spec fn leads_through(records: Seq<FileEntryView>, parts: Seq<Seq<char>>) -> bool {
    exists|j: int|
        0 <= j < records.len() && parts.is_prefix_of(segments((#[trigger] records[j]).path))
}

/// The sum of the sizes of the records whose paths lead through the chain of
/// segments.
pub open spec fn attributed(records: Seq<FileEntryView>, parts: Seq<Seq<char>>) -> nat
    decreases records.len(),
{
    if records.len() == 0 {
        0
    } else {
        attributed(records.drop_last(), parts) + if parts.is_prefix_of(
            segments(records.last().path),
        ) {
            records.last().size
        } else {
            0
        }
    }
}

/// The size of the last record whose path is the chain of segments, and 0 if
/// there is none.
pub open spec fn size_at(records: Seq<FileEntryView>, parts: Seq<Seq<char>>) -> nat
    decreases records.len(),
{
    if records.len() == 0 {
        0
    } else if segments(records.last().path) == parts {
        records.last().size
    } else {
        size_at(records.drop_last(), parts)
    }
}

/// The node at `p` after a file was added at the leaf `parts`, told from the
/// node before.
spec fn added_at(node: TreeModel, parts: Seq<Seq<char>>, size: nat, p: Seq<Seq<char>>) -> bool {
    has_path(add_path(node, parts, size), p) ==> {
        &&& node_at(add_path(node, parts, size), p).total == if has_path(node, p) {
            node_at(node, p).total
        } else {
            0
        } + if p.is_prefix_of(parts) {
            size
        } else {
            0
        }
        &&& node_at(add_path(node, parts, size), p).size == if p == parts {
            size
        } else if has_path(node, p) {
            node_at(node, p).size
        } else {
            0
        }
    }
}

/// What adding a file at a new leaf does to the node at any chain of
/// segments: the node is there if it was there or lies on the way to the
/// leaf; its total is what it was, raised by the size on the way to the leaf;
/// its own size is what it was, and the file's size at the leaf.
proof fn lemma_add_path_at(node: TreeModel, parts: Seq<Seq<char>>, size: nat, p: Seq<Seq<char>>)
    requires
        balanced(node),
        parts.len() > 0,
        !has_path(node, parts),
        node.total + size <= u64::MAX,
    ensures
        has_path(add_path(node, parts, size), p) == (has_path(node, p) || p.is_prefix_of(parts)),
        added_at(node, parts, size, p),
    decreases parts.len(),
{
    lemma_add_path_balanced(node, parts, size);
    let grown_node = add_path(node, parts, size);
    if p.len() == 0 {
        assert(p.is_prefix_of(parts));
        assert(p != parts);
    } else {
        let i = child_index(node.children, parts[0]);
        lemma_child_index(node.children, parts[0]);
        let before = if i < node.children.len() {
            node.children[i]
        } else {
            fresh(parts[0])
        };
        let after = if parts.len() == 1 {
            TreeModel { size, total: size, ..before }
        } else {
            add_path(before, parts.drop_first(), size)
        };
        let grown = with_child(node.children, i, after);
        assert(grown_node.children == grown);
        let at = child_index(grown, p[0]);
        lemma_child_index(grown, p[0]);
        lemma_child_index(node.children, p[0]);
        let rest = p.drop_first();
        let way = parts.drop_first();
        if p[0] == parts[0] {
            assert(p.is_prefix_of(parts) == rest.is_prefix_of(way)) by {
                if rest.is_prefix_of(way) {
                    assert(p =~= parts.take(p.len() as int)) by {
                        assert forall|k: int| 0 <= k < p.len() implies p[k] == parts[k] by {
                            if k > 0 {
                                assert(rest[k - 1] == way[k - 1]);
                            }
                        }
                    }
                }
                if p.is_prefix_of(parts) {
                    assert(rest =~= way.take(rest.len() as int)) by {
                        assert forall|k: int| 0 <= k < rest.len() implies rest[k] == way[k] by {
                            assert(p[k + 1] == parts[k + 1]);
                        }
                    }
                }
            }
            assert((p == parts) == (rest == way)) by {
                if rest == way {
                    assert(p =~= parts) by {
                        assert forall|k: int| 0 <= k < p.len() implies p[k] == parts[k] by {
                            if k > 0 {
                                assert(rest[k - 1] == way[k - 1]);
                            }
                        }
                    }
                }
            }
            assert(after.name == parts[0]);
            lemma_child_index_is(grown, p[0], i);
            assert(grown[i] == after);
            if i < node.children.len() {
                assert(has_path(node, p) == has_path(before, rest));
                assert(node_at(node, p) == node_at(before, rest));
                lemma_sum_totals_update(node.children, i, after);
            } else {
                assert(!has_path(node, p));
                assert(has_path(before, rest) == (rest.len() == 0));
            }
            assert(has_path(grown_node, p) == has_path(after, rest));
            assert(node_at(grown_node, p) == node_at(after, rest));
            if parts.len() == 1 {
                assert(way.len() == 0);
                if i < node.children.len() {
                    assert(has_path(node.children[i], way));
                }
                assert(has_path(after, rest) == (rest.len() == 0));
                assert(rest.is_prefix_of(way) == (rest.len() == 0));
                if rest.len() == 0 {
                    assert(rest =~= way);
                    assert(node_at(after, rest) == after);
                }
                assert(added_at(node, parts, size, p));
            } else {
                lemma_add_path_at(before, way, size, rest);
                assert(added_at(before, way, size, rest));
                if i >= node.children.len() && rest.len() == 0 {
                    assert(rest != way);
                    assert(node_at(before, rest) == before);
                }
                assert(added_at(node, parts, size, p));
            }
        } else {
            assert(!p.is_prefix_of(parts)) by {
                if p.is_prefix_of(parts) {
                    assert(parts.take(p.len() as int)[0] == p[0]);
                }
            }
            assert(p != parts);
            if at < grown.len() {
                assert(at != i);
                assert(grown[at] == node.children[at]);
                assert forall|j: int| 0 <= j < at implies node.children[j].name != p[0] by {
                    if j != i {
                        assert(grown[j] == node.children[j]);
                    }
                }
                lemma_child_index_is(node.children, p[0], at);
            } else {
                assert forall|j: int| 0 <= j < node.children.len() implies node.children[j].name
                    != p[0] by {
                    if j != i {
                        assert(grown[j] == node.children[j]);
                    }
                }
                lemma_child_index_is(node.children, p[0], node.children.len() as int);
            }
            assert(added_at(node, parts, size, p));
        }
    }
}

/// Records whose paths do not lead through a chain of segments attribute
/// nothing to it.
proof fn lemma_nothing_attributed(records: Seq<FileEntryView>, parts: Seq<Seq<char>>)
    requires
        !leads_through(records, parts),
    ensures
        attributed(records, parts) == 0,
        size_at(records, parts) == 0,
    decreases records.len(),
{
    if records.len() > 0 {
        let j = records.len() - 1;
        assert(!parts.is_prefix_of(segments(records[j].path)));
        assert(segments(records.last().path) != parts) by {
            if segments(records.last().path) == parts {
                assert(parts.take(parts.len() as int) =~= parts);
            }
        }
        assert(!leads_through(records.drop_last(), parts)) by {
            if leads_through(records.drop_last(), parts) {
                let k = choose|k: int|
                    0 <= k < records.drop_last().len() && parts.is_prefix_of(
                        segments((#[trigger] records.drop_last()[k]).path),
                    );
                assert(records[k] == records.drop_last()[k]);
            }
        }
        lemma_nothing_attributed(records.drop_last(), parts);
    }
}

/// The tree of records that each name a new leaf, whatever their order: it
/// has a node at a chain of segments exactly if the chain is empty or the
/// path of a record leads through it; the node's total is the sum of the
/// sizes of those records, and its own size is that of the record with this
/// very path, or 0. The sizes must add up to less than 2^64.
pub proof fn lemma_build_attributes(records: Seq<FileEntryView>, parts: Seq<Seq<char>>)
    requires
        new_leaves(records),
        total_bytes(records) <= u64::MAX,
    ensures
        has_path(build(records), parts) == (parts.len() == 0 || leads_through(records, parts)),
        has_path(build(records), parts) ==> {
            &&& node_at(build(records), parts).total == attributed(records, parts)
            &&& node_at(build(records), parts).size == size_at(records, parts)
        },
    decreases records.len(),
{
    if records.len() == 0 {
        assert(empty_root().children.len() == 0);
    } else {
        let earlier = records.drop_last();
        let last = records.last();
        let way = segments(last.path);
        assert(new_leaves(earlier)) by {
            assert forall|j: int, k: int| 0 <= j < k < earlier.len() implies !segments(
                earlier[k].path,
            ).is_prefix_of(segments(earlier[j].path)) by {
                assert(earlier[j] == records[j] && earlier[k] == records[k]);
            }
        }
        lemma_build_balanced(earlier);
        lemma_build_attributes(earlier, parts);
        lemma_build_attributes(earlier, way);
        lemma_split_join(replaced(last.path, '\\', '/'), '/');
        assert(!leads_through(earlier, way)) by {
            if leads_through(earlier, way) {
                let j = choose|j: int|
                    0 <= j < earlier.len() && way.is_prefix_of(
                        segments((#[trigger] earlier[j]).path),
                    );
                assert(earlier[j] == records[j]);
                assert(records[records.len() - 1] == last);
            }
        }
        lemma_add_path_at(build(earlier), way, last.size, parts);
        assert(leads_through(records, parts) == (leads_through(earlier, parts)
            || parts.is_prefix_of(way))) by {
            if leads_through(earlier, parts) {
                let j = choose|j: int|
                    0 <= j < earlier.len() && parts.is_prefix_of(
                        segments((#[trigger] earlier[j]).path),
                    );
                assert(records[j] == earlier[j]);
            }
            if parts.is_prefix_of(way) {
                assert(parts.is_prefix_of(segments(records[records.len() - 1].path)));
            }
            if leads_through(records, parts) {
                let j = choose|j: int|
                    0 <= j < records.len() && parts.is_prefix_of(
                        segments((#[trigger] records[j]).path),
                    );
                if j < earlier.len() {
                    assert(earlier[j] == records[j]);
                }
            }
        }
        if parts.len() > 0 && !leads_through(earlier, parts) {
            lemma_nothing_attributed(earlier, parts);
        }
        if parts.len() == 0 {
            assert(size_at(records, parts) == size_at(earlier, parts));
        }
        if parts == way {
            assert(parts.is_prefix_of(way)) by {
                assert(way.take(parts.len() as int) =~= parts);
            }
        }
    }
}

/// What is attributed to a chain of segments, told from one record and from
/// the others.
proof fn lemma_attributed_without(records: Seq<FileEntryView>, j: int, parts: Seq<Seq<char>>)
    requires
        0 <= j < records.len(),
    ensures
        attributed(records, parts) == attributed(records.remove(j), parts) + if parts.is_prefix_of(
            segments(records[j].path),
        ) {
            records[j].size
        } else {
            0
        },
    decreases records.len(),
{
    if j == records.len() - 1 {
        assert(records.remove(j) =~= records.drop_last());
    } else {
        let shorter = records.drop_last();
        lemma_attributed_without(shorter, j, parts);
        assert(records.remove(j).drop_last() =~= shorter.remove(j));
        assert(records.remove(j).last() == records.last());
        assert(shorter[j] == records[j]);
    }
}

/// What is attributed to a chain of segments does not depend on the order of
/// the records.
proof fn lemma_attributed_any_order(
    one: Seq<FileEntryView>,
    other: Seq<FileEntryView>,
    parts: Seq<Seq<char>>,
)
    requires
        bag(one) == bag(other),
    ensures
        attributed(one, parts) == attributed(other, parts),
    decreases one.len(),
{
    lemma_bag_len(one);
    lemma_bag_len(other);
    if one.len() == 0 {
        assert(other =~= one);
    } else {
        let j = lemma_bag_peel(one, other);
        lemma_attributed_without(other, j, parts);
        lemma_attributed_any_order(one.drop_last(), other.remove(j), parts);
    }
}

/// Where each record names a new leaf, the size at a chain of segments is
/// that of the one record with this path.
proof fn lemma_size_at_is(records: Seq<FileEntryView>, parts: Seq<Seq<char>>, j: int)
    requires
        new_leaves(records),
        0 <= j < records.len(),
        segments(records[j].path) == parts,
    ensures
        size_at(records, parts) == records[j].size,
    decreases records.len(),
{
    let last = records.len() - 1;
    if segments(records.last().path) == parts {
        if j < last {
            assert(segments(records[last].path).take(parts.len() as int) =~= parts);
            assert(segments(records[last].path).is_prefix_of(segments(records[j].path)));
        }
    } else {
        let shorter = records.drop_last();
        assert(new_leaves(shorter)) by {
            assert forall|x: int, y: int| 0 <= x < y < shorter.len() implies !segments(
                shorter[y].path,
            ).is_prefix_of(segments(shorter[x].path)) by {
                assert(shorter[x] == records[x] && shorter[y] == records[y]);
            }
        }
        assert(shorter[j] == records[j]);
        lemma_size_at_is(shorter, parts, j);
    }
}

proof fn lemma_size_at_none(records: Seq<FileEntryView>, parts: Seq<Seq<char>>)
    requires
        forall|j: int| 0 <= j < records.len() ==> segments((#[trigger] records[j]).path) != parts,
    ensures
        size_at(records, parts) == 0,
    decreases records.len(),
{
    if records.len() > 0 {
        assert(segments(records[records.len() - 1].path) != parts);
        assert forall|j: int| 0 <= j < records.drop_last().len() implies segments(
            (#[trigger] records.drop_last()[j]).path,
        ) != parts by {
            assert(records.drop_last()[j] == records[j]);
        }
        lemma_size_at_none(records.drop_last(), parts);
    }
}

/// The size tree does not depend on the order of the records. Take two lists
/// that hold the same records, each as often as the other, in whatever
/// order, where each record names a new leaf and the sizes add up to less
/// than 2^64. Their trees have nodes at the same chains of segments, with the
/// same totals and the same sizes, and the same total at the root.
pub proof fn lemma_tree_any_order(
    one: Seq<FileEntryView>,
    other: Seq<FileEntryView>,
    parts: Seq<Seq<char>>,
)
    requires
        bag(one) == bag(other),
        new_leaves(one),
        new_leaves(other),
        total_bytes(one) <= u64::MAX,
    ensures
        build(one).total == build(other).total,
        has_path(build(one), parts) == has_path(build(other), parts),
        has_path(build(one), parts) ==> {
            &&& node_at(build(one), parts).total == node_at(build(other), parts).total
            &&& node_at(build(one), parts).size == node_at(build(other), parts).size
        },
{
    lemma_bag_totals(one, other);
    lemma_build_balanced(one);
    lemma_build_balanced(other);
    lemma_build_attributes(one, parts);
    lemma_build_attributes(other, parts);
    lemma_attributed_any_order(one, other, parts);
    if leads_through(one, parts) {
        let j = choose|j: int|
            0 <= j < one.len() && parts.is_prefix_of(segments((#[trigger] one[j]).path));
        lemma_bag_member(one, j);
        lemma_bag_has(other, one[j]);
        let k = choose|k: int| 0 <= k < other.len() && other[k] == one[j];
        assert(parts.is_prefix_of(segments(other[k].path)));
    }
    if leads_through(other, parts) {
        let j = choose|j: int|
            0 <= j < other.len() && parts.is_prefix_of(segments((#[trigger] other[j]).path));
        lemma_bag_member(other, j);
        lemma_bag_has(one, other[j]);
        let k = choose|k: int| 0 <= k < one.len() && one[k] == other[j];
        assert(parts.is_prefix_of(segments(one[k].path)));
    }
    if exists|j: int| 0 <= j < one.len() && segments((#[trigger] one[j]).path) == parts {
        let j = choose|j: int| 0 <= j < one.len() && segments((#[trigger] one[j]).path) == parts;
        lemma_bag_member(one, j);
        lemma_bag_has(other, one[j]);
        let k = choose|k: int| 0 <= k < other.len() && other[k] == one[j];
        lemma_size_at_is(one, parts, j);
        lemma_size_at_is(other, parts, k);
    } else {
        lemma_size_at_none(one, parts);
        assert forall|k: int| 0 <= k < other.len() implies segments(
            (#[trigger] other[k]).path,
        ) != parts by {
            lemma_bag_member(other, k);
            lemma_bag_has(one, other[k]);
            let j = choose|j: int| 0 <= j < one.len() && one[j] == other[k];
            assert(segments(one[j].path) != parts);
        }
        lemma_size_at_none(other, parts);
    }
}

/// The number of nodes of a subtree, its top included.
pub open spec fn node_count(node: TreeModel) -> nat
    decreases node, 0nat,
{
    1 + nodes_among(node.children, node.children.len())
}

/// The number of nodes of the subtrees of the first `n` children.
pub open spec fn nodes_among(children: Seq<TreeModel>, n: nat) -> nat
    decreases children, n,
{
    if n == 0 || n > children.len() {
        0
    } else {
        nodes_among(children, (n - 1) as nat) + node_count(children[n - 1])
    }
}

/// A subtree has one input for each of its nodes.
proof fn lemma_flatten_len(node: TreeModel, path: Seq<char>)
    ensures
        flatten(node, path).len() == node_count(node),
    decreases node, 0nat,
{
    lemma_flatten_children_len(node.children, Some(path), node.children.len());
}

proof fn lemma_flatten_children_len(children: Seq<TreeModel>, parent: Option<Seq<char>>, n: nat)
    requires
        n <= children.len(),
    ensures
        flatten_children(children, parent, n).len() == nodes_among(children, n),
    decreases children, n,
{
    if n > 0 {
        lemma_flatten_children_len(children, parent, (n - 1) as nat);
        lemma_flatten_len(children[n - 1], full_path(parent, children[n - 1].name));
    }
}

/// No node is left out of the metafile: a tree has one input for each node
/// below its root.
pub proof fn lemma_every_node_is_an_input(root: TreeModel)
    ensures
        tree_inputs(root).len() + 1 == node_count(root),
{
    lemma_flatten_children_len(root.children, None, root.children.len());
}

/// The name holds no slash.
pub open spec fn plain(name: Seq<char>) -> bool {
    forall|i: int| 0 <= i < name.len() ==> name[i] != '/'
}

/// Below the node, no two children of one node have the same name, and no
/// name holds a slash.
pub open spec fn well_named(node: TreeModel) -> bool
    decreases node,
{
    &&& forall|i: int, j: int|
        0 <= i < j < node.children.len() ==> node.children[i].name != node.children[j].name
    &&& forall|i: int|
        0 <= i < node.children.len() ==> plain((#[trigger] node.children[i]).name) && well_named(
            node.children[i],
        )
}

/// The key is the path or lies below it: it goes on with a slash.
pub open spec fn under(key: Seq<char>, path: Seq<char>) -> bool {
    key == path || (key.len() > path.len() && key.take(path.len() as int) == path
        && key[path.len() as int] == '/')
}

/// No two of the inputs have the same path.
pub open spec fn distinct_paths(inputs: Seq<(Seq<char>, NodeModel)>) -> bool {
    forall|i: int, j: int| 0 <= i < j < inputs.len() ==> inputs[i].0 != inputs[j].0
}

/// Adding a file along plain segments keeps a tree well named.
proof fn lemma_add_path_names(node: TreeModel, parts: Seq<Seq<char>>, size: nat)
    requires
        well_named(node),
        forall|i: int| 0 <= i < parts.len() ==> plain(#[trigger] parts[i]),
    ensures
        well_named(add_path(node, parts, size)),
        add_path(node, parts, size).name == node.name,
    decreases parts.len(),
{
    if parts.len() > 0 {
        let i = child_index(node.children, parts[0]);
        lemma_child_index(node.children, parts[0]);
        let before = if i < node.children.len() {
            node.children[i]
        } else {
            fresh(parts[0])
        };
        let after = if parts.len() == 1 {
            TreeModel { size, total: size, ..before }
        } else {
            add_path(before, parts.drop_first(), size)
        };
        assert(well_named(before));
        if parts.len() > 1 {
            assert forall|k: int| 0 <= k < parts.drop_first().len() implies plain(
                #[trigger] parts.drop_first()[k],
            ) by {
                assert(parts.drop_first()[k] == parts[k + 1]);
            }
            lemma_add_path_names(before, parts.drop_first(), size);
        }
        assert(after.name == parts[0]);
        assert(well_named(after));
        let grown = with_child(node.children, i, after);
        assert forall|a: int, b: int| 0 <= a < b < grown.len() implies grown[a].name
            != grown[b].name by {
            if a < node.children.len() && a != i {
                assert(grown[a] == node.children[a]);
            }
            if b < node.children.len() && b != i {
                assert(grown[b] == node.children[b]);
            }
        }
        assert forall|k: int| 0 <= k < grown.len() implies plain((#[trigger] grown[k]).name)
            && well_named(grown[k]) by {
            if k != i {
                assert(grown[k] == node.children[k]);
            }
        }
    }
}

/// The tree of any records is well named.
pub proof fn lemma_build_names(records: Seq<FileEntryView>)
    ensures
        well_named(build(records)),
    decreases records.len(),
{
    if records.len() > 0 {
        lemma_build_names(records.drop_last());
        lemma_split_join(replaced(records.last().path, '\\', '/'), '/');
        lemma_add_path_names(
            build(records.drop_last()),
            segments(records.last().path),
            records.last().size,
        );
    }
}

/// A key lies under the paths of two children of one node only if the
/// children have the same name.
proof fn lemma_under_one_child(
    key: Seq<char>,
    parent: Option<Seq<char>>,
    a: Seq<char>,
    b: Seq<char>,
)
    requires
        plain(a),
        plain(b),
        under(key, full_path(parent, a)),
        under(key, full_path(parent, b)),
    ensures
        a == b,
{
    let pa = full_path(parent, a);
    let pb = full_path(parent, b);
    let offset = pa.len() - a.len();
    assert(pb.len() - b.len() == offset);
    assert(forall|i: int| 0 <= i < a.len() ==> pa[offset + i] == a[i]);
    assert(forall|i: int| 0 <= i < b.len() ==> pb[offset + i] == b[i]);
    assert(key.take(pa.len() as int) == pa);
    assert(key.take(pb.len() as int) == pb);
    if a.len() < b.len() {
        assert(key[pa.len() as int] == '/');
        assert(key.take(pb.len() as int)[pa.len() as int] == pb[offset + a.len()]);
        assert(b[a.len() as int] == '/');
    } else if b.len() < a.len() {
        assert(key[pb.len() as int] == '/');
        assert(key.take(pa.len() as int)[pb.len() as int] == pa[offset + b.len()]);
        assert(a[b.len() as int] == '/');
    } else {
        assert forall|i: int| 0 <= i < a.len() implies a[i] == b[i] by {
            assert(key.take(pa.len() as int)[offset + i] == key.take(pb.len() as int)[offset
                + i]);
        }
        assert(a =~= b);
    }
}

/// What lies under the path of a child lies under the path of its parent,
/// and is not that path.
proof fn lemma_under_parent(key: Seq<char>, parent: Seq<char>, name: Seq<char>)
    requires
        under(key, joined(parent, name)),
    ensures
        under(key, parent),
        key != parent,
{
    let path = joined(parent, name);
    assert(path.take(parent.len() as int) =~= parent);
    assert(path[parent.len() as int] == '/');
    assert(key.take(path.len() as int) == path);
    assert(key.take(parent.len() as int) =~= key.take(path.len() as int).take(
        parent.len() as int,
    ));
    assert(key[parent.len() as int] == key.take(path.len() as int)[parent.len() as int]);
}

/// In a well-named subtree every input lies under the subtree's path, and no
/// two inputs have the same path.
proof fn lemma_flatten_paths(node: TreeModel, path: Seq<char>)
    requires
        well_named(node),
    ensures
        distinct_paths(flatten(node, path)),
        forall|k: int|
            0 <= k < flatten(node, path).len() ==> under(
                (#[trigger] flatten(node, path)[k]).0,
                path,
            ),
    decreases node, 0nat,
{
    let own = seq![(path, NodeModel { bytes: node.size, imports: edges(path, node.children) })];
    let below = flatten_children(node.children, Some(path), node.children.len());
    let all = flatten(node, path);
    lemma_flatten_children_paths(node.children, Some(path), node.children.len());
    assert forall|k: int| 0 <= k < all.len() implies under((#[trigger] all[k]).0, path)
        && (k > 0 ==> all[k].0 != path) by {
        if k > 0 {
            assert(all[k] == below[k - 1]);
            let i = choose|i: int|
                0 <= i < node.children.len() && under(
                    below[k - 1].0,
                    full_path(Some(path), node.children[i].name),
                );
            lemma_under_parent(all[k].0, path, node.children[i].name);
        }
    }
    assert forall|a: int, b: int| 0 <= a < b < all.len() implies all[a].0 != all[b].0 by {
        if a > 0 {
            assert(all[a] == below[a - 1] && all[b] == below[b - 1]);
        } else {
            assert(all[a].0 == path);
        }
    }
}

proof fn lemma_flatten_children_paths(
    children: Seq<TreeModel>,
    parent: Option<Seq<char>>,
    n: nat,
)
    requires
        n <= children.len(),
        forall|i: int, j: int| 0 <= i < j < children.len() ==> children[i].name != children[j].name,
        forall|i: int|
            0 <= i < children.len() ==> plain((#[trigger] children[i]).name) && well_named(
                children[i],
            ),
    ensures
        distinct_paths(flatten_children(children, parent, n)),
        forall|k: int|
            0 <= k < flatten_children(children, parent, n).len() ==> exists|i: int|
                0 <= i < n && under(
                    (#[trigger] flatten_children(children, parent, n)[k]).0,
                    full_path(parent, children[i].name),
                ),
    decreases children, n,
{
    if n > 0 {
        let child = children[n - 1];
        let at = full_path(parent, child.name);
        let earlier = flatten_children(children, parent, (n - 1) as nat);
        let last = flatten(child, at);
        let all = flatten_children(children, parent, n);
        lemma_flatten_children_paths(children, parent, (n - 1) as nat);
        lemma_flatten_paths(child, at);
        assert forall|k: int| 0 <= k < all.len() implies exists|i: int|
            0 <= i < n && under((#[trigger] all[k]).0, full_path(parent, children[i].name)) by {
            if k < earlier.len() {
                assert(all[k] == earlier[k]);
                let i = choose|i: int|
                    0 <= i < n - 1 && under(earlier[k].0, full_path(parent, children[i].name));
                assert(0 <= i < n && under(all[k].0, full_path(parent, children[i].name)));
            } else {
                assert(all[k] == last[k - earlier.len()]);
                assert(under(all[k].0, full_path(parent, children[n - 1].name)));
            }
        }
        assert forall|a: int, b: int| 0 <= a < b < all.len() implies all[a].0 != all[b].0 by {
            if b < earlier.len() {
                assert(all[a] == earlier[a] && all[b] == earlier[b]);
            } else if a >= earlier.len() {
                assert(all[a] == last[a - earlier.len()] && all[b] == last[b - earlier.len()]);
            } else {
                assert(all[a] == earlier[a] && all[b] == last[b - earlier.len()]);
                let i = choose|i: int|
                    0 <= i < n - 1 && under(earlier[a].0, full_path(parent, children[i].name));
                if all[a].0 == all[b].0 {
                    lemma_under_one_child(all[a].0, parent, children[i].name, child.name);
                }
            }
        }
    }
}

/// The inputs of the metafile of any records are a mapping: no two of them
/// have the same path.
pub proof fn lemma_input_paths_distinct(records: Seq<FileEntryView>)
    ensures
        distinct_paths(tree_inputs(build(records))),
{
    lemma_build_names(records);
    let root = build(records);
    lemma_flatten_children_paths(root.children, None, root.children.len());
}

} // verus!
