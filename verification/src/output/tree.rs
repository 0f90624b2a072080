//! The size tree: the flat list of records as a hierarchy of path segments.

use vstd::prelude::*;
use vstd::hash_map::StringHashMap;
use crate::analyzer::{wrap_u64, FileEntryView};
use crate::text::{replaced, split, text_views};

verus! {

/// The mathematical value of a size tree: a name, the node's own size, the
/// size attributed to its subtree, and its children in the order in which
/// they were first seen.
pub struct TreeModel {
    pub name: Seq<char>,
    pub size: nat,
    pub total: nat,
    pub children: Seq<TreeModel>,
}

/// The segments of a path: backslashes count as slashes, and the path is cut
/// at every slash.
pub open spec fn segments(path: Seq<char>) -> Seq<Seq<char>> {
    split(replaced(path, '\\', '/'), '/')
}

/// The position of the first child with the given name, or the number of
/// children if there is none.
pub open spec fn child_index(children: Seq<TreeModel>, name: Seq<char>) -> int
    decreases children.len(),
{
    if children.len() == 0 {
        0
    } else if children[0].name == name {
        0
    } else {
        1 + child_index(children.drop_first(), name)
    }
}

/// A node without size or children.
pub open spec fn fresh(name: Seq<char>) -> TreeModel {
    TreeModel { name, size: 0, total: 0, children: Seq::empty() }
}

/// The children with `child` at position `i`: in place of the child there, or
/// appended where `i` is the number of children.
pub open spec fn with_child(children: Seq<TreeModel>, i: int, child: TreeModel) -> Seq<TreeModel> {
    if i < children.len() {
        children.update(i, child)
    } else {
        children.push(child)
    }
}

/// The tree after a file of `size` bytes has been attributed to the chain of
/// segments `parts` below `node`.
///
/// Every node on the chain, `node` included, has its total raised by `size`
/// (totals are kept in 64 bits). Nodes that are missing are created. The node
/// of the last segment gets `size` as its own size and as its total, whatever
/// it held before.
pub open spec fn add_path(node: TreeModel, parts: Seq<Seq<char>>, size: nat) -> TreeModel
    decreases parts.len(),
{
    let total = wrap_u64(node.total + size) as nat;
    if parts.len() == 0 {
        TreeModel { total, ..node }
    } else {
        let i = child_index(node.children, parts[0]);
        let before = if i < node.children.len() {
            node.children[i]
        } else {
            fresh(parts[0])
        };
        let after = if parts.len() == 1 {
            TreeModel { size, total: size, ..before }
        } else {
            add_path(before, parts.drop_first(), size)
        };
        TreeModel { total, children: with_child(node.children, i, after), ..node }
    }
}

/// The root of an empty tree.
pub open spec fn empty_root() -> TreeModel {
    fresh("ROOT"@)
}

/// The tree of a list of records: each record in turn is attributed to the
/// segments of its path.
pub open spec fn build(records: Seq<FileEntryView>) -> TreeModel
    decreases records.len(),
{
    if records.len() == 0 {
        empty_root()
    } else {
        add_path(build(records.drop_last()), segments(records.last().path), records.last().size)
    }
}

/// A node of the size tree.
pub struct SizeTreeNode {
    name: String,
    size: u64,
    total_size: u64,
    children: Vec<SizeTreeNode>,
    index: StringHashMap<usize>,
}

impl SizeTreeNode {
    /// The models of the children, in order.
    pub closed spec fn child_models(&self) -> Seq<TreeModel>
        decreases self, 0nat,
    {
        Seq::new(
            self.children@.len(),
            |i: int|
                if 0 <= i < self.children@.len() {
                    self.children@[i].model()
                } else {
                    arbitrary()
                },
        )
    }

    /// The mathematical value of the subtree.
    pub closed spec fn model(&self) -> TreeModel
        decreases self, 1nat,
    {
        TreeModel {
            name: self.name@,
            size: self.size as nat,
            total: self.total_size as nat,
            children: self.child_models(),
        }
    }

    /// The lookup table of every node names each of its children once.
    pub closed spec fn wf(&self) -> bool
        decreases self,
    {
        &&& forall|i: int|
            0 <= i < self.children@.len() ==> {
                &&& self.index@.contains_key(#[trigger] self.children@[i].name@)
                &&& self.index@[self.children@[i].name@] == i
            }
        &&& forall|k: Seq<char>| #[trigger]
            self.index@.contains_key(k) ==> {
                &&& self.index@[k] < self.children@.len()
                &&& self.children@[self.index@[k] as int].name@ == k
            }
        &&& forall|i: int| 0 <= i < self.children@.len() ==> (#[trigger] self.children@[i]).wf()
    }

    /// Under `wf`, the lookup table gives the position that `child_index`
    /// names.
    proof fn lemma_index_agrees(&self, name: Seq<char>)
        requires
            self.wf(),
        ensures
            self.index@.contains_key(name) ==> child_index(self.child_models(), name)
                == self.index@[name],
            !self.index@.contains_key(name) ==> child_index(self.child_models(), name)
                == self.children@.len(),
    {
        let models = self.child_models();
        lemma_child_index(models, name);
        let found = child_index(models, name);
        if found < models.len() {
            assert(self.children@[found].name@ == name);
            assert(self.index@.contains_key(self.children@[found].name@));
        }
        if self.index@.contains_key(name) {
            let at = self.index@[name] as int;
            assert(models[at].name == name);
        }
    }

    /// A node without size or children.
    pub fn new(name: String) -> (node: Self)
        ensures
            node.wf(),
            node.model() == fresh(name@),
    {
        let node = SizeTreeNode {
            name,
            size: 0,
            total_size: 0,
            children: Vec::new(),
            index: StringHashMap::new(),
        };
        assert(node.child_models() =~= Seq::<TreeModel>::empty());
        node
    }

    /// The segment that this node stands for.
    pub fn name(&self) -> (name: &String)
        ensures
            name@ == self.model().name,
    {
        &self.name
    }

    /// The node's own size: that of the file, and 0 for a directory.
    pub fn size(&self) -> (size: u64)
        ensures
            size == self.model().size,
    {
        self.size
    }

    /// The size attributed to the node and everything below it.
    pub fn total_size(&self) -> (total: u64)
        ensures
            total == self.model().total,
    {
        self.total_size
    }

    /// The number of children.
    pub fn child_count(&self) -> (n: usize)
        ensures
            n == self.model().children.len(),
    {
        self.children.len()
    }

    /// The child at a position.
    pub fn child_at(&self, i: usize) -> (child: &SizeTreeNode)
        requires
            i < self.model().children.len(),
        ensures
            child.model() == self.model().children[i as int],
            self.wf() ==> child.wf(),
    {
        &self.children[i]
    }

    /// The child with the given name, if there is one.
    pub fn child(&self, name: &str) -> (child: Option<&SizeTreeNode>)
        requires
            self.wf(),
        ensures
            match child {
                Some(c) => {
                    &&& child_index(self.model().children, name@) < self.model().children.len()
                    &&& c.model() == self.model().children[child_index(
                        self.model().children,
                        name@,
                    )]
                    &&& c.wf()
                },
                None => child_index(self.model().children, name@) == self.model().children.len(),
            },
    {
        proof {
            self.lemma_index_agrees(name@);
        }
        match self.index.get(name) {
            Some(at) => Some(&self.children[*at]),
            None => None,
        }
    }

    /// Attributes a file of `size` bytes to the chain of segments `parts`
    /// below this node.
    pub fn add_path(&mut self, parts: &[String], size: u64)
        requires
            old(self).wf(),
        ensures
            final(self).wf(),
            final(self).model() == add_path(old(self).model(), text_views(parts@), size as nat),
    {
        assert(text_views(parts@).skip(0) =~= text_views(parts@));
        self.add_from(parts, 0, size);
    }

    fn add_from(&mut self, parts: &[String], from: usize, size: u64)
        requires
            old(self).wf(),
            from <= parts@.len(),
        ensures
            final(self).wf(),
            final(self).model() == add_path(
                old(self).model(),
                text_views(parts@).skip(from as int),
                size as nat,
            ),
        decreases parts@.len() - from,
    {
        let ghost rest = text_views(parts@).skip(from as int);
        let room: u64 = u64::MAX - self.total_size;
        self.total_size = if size > room {
            size - room - 1
        } else {
            self.total_size + size
        };
        if from == parts.len() {
            return ;
        }
        let part = &parts[from];
        assert(rest[0] == part@);
        proof {
            self.lemma_index_agrees(part@);
        }
        let found = match self.index.get(part.as_str()) {
            Some(at) => Some(*at),
            None => None,
        };
        let at: usize = match found {
            Some(at) => at,
            None => {
                let at = self.children.len();
                self.children.push(SizeTreeNode::new(part.clone()));
                self.index.insert(part.clone(), at);
                at
            },
        };
        assert(self.wf());
        if from + 1 == parts.len() {
            Self::set_leaf(&mut self.children[at], size);
        } else {
            assert(rest.drop_first() =~= text_views(parts@).skip(from + 1));
            self.children[at].add_from(parts, from + 1, size);
        }
        assert(self.child_models() =~= with_child(
            old(self).child_models(),
            child_index(old(self).child_models(), part@),
            self.children@[at as int].model(),
        ));
    }

    fn set_leaf(node: &mut SizeTreeNode, size: u64)
        requires
            old(node).wf(),
        ensures
            final(node).wf(),
            final(node).model() == (TreeModel {
                size: size as nat,
                total: size as nat,
                ..old(node).model()
            }),
    {
        node.size = size;
        node.total_size = size;
    }
}

/// `child_index` names the first child with the name, if there is one.
pub proof fn lemma_child_index(children: Seq<TreeModel>, name: Seq<char>)
    ensures
        0 <= child_index(children, name) <= children.len(),
        child_index(children, name) < children.len() ==> children[child_index(
            children,
            name,
        )].name == name,
        forall|j: int| 0 <= j < child_index(children, name) ==> children[j].name != name,
    decreases children.len(),
{
    if children.len() > 0 && children[0].name != name {
        lemma_child_index(children.drop_first(), name);
        assert forall|j: int| 0 <= j < child_index(children, name) implies children[j].name
            != name by {
            if j > 0 {
                assert(children.drop_first()[j - 1] == children[j]);
            }
        }
    }
}

} // verus!
