//! The metafile output: the size tree as a graph of sized nodes.
//!
//! Every node of the size tree below the root becomes one input, keyed by its
//! full path (the segments from the top joined by `/`). An input carries the
//! node's own size and one import edge to each of its children. One output
//! summarises the whole: the root's total and every input with its size.

use vstd::prelude::*;
use std::collections::HashMap;
use crate::analyzer::{entry_views, AnalysisResult};
use crate::error::AnalyzerError;
use crate::output::OutputFormatter;
use crate::output::tree::{build, segments, SizeTreeNode, TreeModel};
use crate::text::{replace_char, replaced, split_on, text_views};

verus! {

/// `serde_metafile::Input`, one input of a metafile. Proofs see nothing inside.
#[verifier::external_type_specification]
#[verifier::external_body]
pub struct ExInput(serde_metafile::Input);

/// `serde_metafile::Output`, one output of a metafile. Proofs see nothing inside.
#[verifier::external_type_specification]
#[verifier::external_body]
pub struct ExOutput(serde_metafile::Output);

/// One input of the metafile: a node's own size and the full paths of its
/// children.
#[derive(Debug, Clone)]
pub struct MetafileNode {
    pub bytes: u64,
    pub imports: Vec<String>,
}

/// The mathematical value of a [`MetafileNode`].
pub struct NodeModel {
    pub bytes: nat,
    pub imports: Seq<Seq<char>>,
}

impl View for MetafileNode {
    type V = NodeModel;

    open spec fn view(&self) -> NodeModel {
        NodeModel { bytes: self.bytes as nat, imports: text_views(self.imports@) }
    }
}

/// The output of the metafile: the total, and the size of every input.
#[derive(Debug, Clone)]
pub struct MetafileOutput {
    pub bytes: u64,
    pub inputs: Vec<(String, u64)>,
}

/// The whole metafile: the inputs by full path, and the one output with its
/// key.
#[derive(Debug, Clone)]
pub struct MetafileDocument {
    pub inputs: Vec<(String, MetafileNode)>,
    pub output_name: String,
    pub output: MetafileOutput,
}

/// The views of the inputs, in the same order.
pub open spec fn input_views(inputs: Seq<(String, MetafileNode)>) -> Seq<(Seq<char>, NodeModel)> {
    Seq::new(inputs.len(), |i: int| (inputs[i].0@, inputs[i].1@))
}

/// The views of the sizes of an output, in the same order.
pub open spec fn detail_views(details: Seq<(String, u64)>) -> Seq<(Seq<char>, nat)> {
    Seq::new(details.len(), |i: int| (details[i].0@, details[i].1 as nat))
}

/// The full path of a node named `name` below the node at `parent`.
pub open spec fn joined(parent: Seq<char>, name: Seq<char>) -> Seq<char> {
    parent.push('/') + name
}

/// The full path of a node: its name at the top, else below its parent.
pub open spec fn full_path(parent: Option<Seq<char>>, name: Seq<char>) -> Seq<char> {
    match parent {
        Some(p) => joined(p, name),
        None => name,
    }
}

/// The import edges of the node at `path`: the full paths of its children.
pub open spec fn edges(path: Seq<char>, children: Seq<TreeModel>) -> Seq<Seq<char>> {
    Seq::new(children.len(), |i: int| joined(path, children[i].name))
}

/// The inputs of the subtree of `node`, which stands at `path`: the node
/// itself, then the subtrees of its children in order.
pub open spec fn flatten(node: TreeModel, path: Seq<char>) -> Seq<(Seq<char>, NodeModel)>
    decreases node, 0nat,
{
    seq![(path, NodeModel { bytes: node.size, imports: edges(path, node.children) })]
        + flatten_children(node.children, Some(path), node.children.len())
}

/// The inputs of the subtrees of the first `n` children of the node at
/// `parent` (of the top-level nodes where there is no parent).
pub open spec fn flatten_children(
    children: Seq<TreeModel>,
    parent: Option<Seq<char>>,
    n: nat,
) -> Seq<(Seq<char>, NodeModel)>
    decreases children, n,
{
    if n == 0 || n > children.len() {
        Seq::empty()
    } else {
        flatten_children(children, parent, (n - 1) as nat) + flatten(
            children[n - 1],
            full_path(parent, children[n - 1].name),
        )
    }
}

/// The inputs of a whole tree: the subtrees of the root's children. The root
/// itself is no input.
pub open spec fn tree_inputs(root: TreeModel) -> Seq<(Seq<char>, NodeModel)> {
    flatten_children(root.children, None, root.children.len())
}

/// The sizes of the inputs, as the output lists them.
pub open spec fn input_sizes(inputs: Seq<(Seq<char>, NodeModel)>) -> Seq<(Seq<char>, nat)> {
    Seq::new(inputs.len(), |i: int| (inputs[i].0, inputs[i].1.bytes))
}

/// The key of the one output of the metafile.
pub open spec fn output_key() -> Seq<char> {
    "wiztree"@
}

/// The longest text, in bytes, that the script engines of web tools accept as
/// one string.
pub const MAX_JSON_LENGTH: usize = 0x1fff_ffe8;

/// The inputs in the form of `serde_metafile`: each path with an `Input` that
/// holds the node's size and one plain `Import` for each of its edges. A path
/// that occurs twice keeps its last node.
#[verifier::external_body]
fn input_table(inputs: &Vec<(String, MetafileNode)>) -> (table: HashMap<
    String,
    serde_metafile::Input,
>) {
    inputs.iter().map(|(path, node)| {
        let imports = node.imports.iter().map(|edge| serde_metafile::Import {
            path: edge.clone(), kind: None, external: false, original: None, with: None,
        }).collect();
        (path.clone(), serde_metafile::Input { bytes: node.bytes, imports, format: None, with: None })
    }).collect()
}

/// The output in the form of `serde_metafile`: an `Output` with the total and
/// with an `InputDetail` for each listed size, and nothing else set.
#[verifier::external_body]
fn output_record(output: &MetafileOutput) -> (record: serde_metafile::Output) {
    let inputs = output.inputs.iter().map(|(path, bytes)| {
        (path.clone(), serde_metafile::InputDetail { bytes_in_output: *bytes })
    }).collect();
    serde_metafile::Output {
        bytes: output.bytes, inputs, imports: Vec::new(), exports: Vec::new(),
        entry_point: None, css_bundle: None,
    }
}

/// `serde_json::to_string` on the `serde_metafile::Metafile` made of the
/// inputs and of the one output under its key. The text is compact JSON; the
/// order of its members follows the hash maps and is not fixed, so nothing is
/// claimed of it.
#[verifier::external_body]
fn encode(
    inputs: HashMap<String, serde_metafile::Input>,
    name: String,
    output: serde_metafile::Output,
) -> (json: Result<String, serde_json::Error>) {
    let outputs = HashMap::from([(name, output)]);
    serde_json::to_string(&serde_metafile::Metafile { inputs, outputs })
}

/// Formats a result as a bundler metafile.
pub struct MetafileFormatter;

impl MetafileFormatter {
    /// The path with backslashes turned into slashes.
    pub fn normalize_path(path: &str) -> (out: String)
        ensures
            out@ == replaced(path@, '\\', '/'),
    {
        replace_char(path, '\\', '/')
    }

    /// Attributes a file of `size` bytes to the chain of segments `parts`
    /// below `node`.
    pub fn add_path(node: &mut SizeTreeNode, parts: &[String], size: u64)
        requires
            old(node).wf(),
        ensures
            final(node).wf(),
            final(node).model() == crate::output::tree::add_path(
                old(node).model(),
                text_views(parts@),
                size as nat,
            ),
    {
        node.add_path(parts, size);
    }

    /// The size tree of the records of a result.
    pub fn build_tree(result: &AnalysisResult) -> (root: SizeTreeNode)
        ensures
            root.wf(),
            root.model() == build(entry_views(result.entries@)),
    {
        let mut root = SizeTreeNode::new("ROOT".to_owned());
        let n = result.entries.len();
        for i in 0..n
            invariant
                n == result.entries@.len(),
                root.wf(),
                root.model() == build(entry_views(result.entries@).take(i as int)),
        {
            let entry = &result.entries[i];
            let normal = Self::normalize_path(entry.path.as_str());
            let parts = split_on(normal.as_str(), '/');
            proof {
                let views = entry_views(result.entries@);
                assert(views.take(i + 1).drop_last() =~= views.take(i as int));
                assert(views.take(i + 1).last() == entry@);
                assert(text_views(parts@) == segments(entry@.path));
            }
            Self::add_path(&mut root, parts.as_slice(), entry.size);
        }
        assert(entry_views(result.entries@).take(n as int) =~= entry_views(result.entries@));
        root
    }

    /// Appends the inputs of the subtree of `node` to `inputs`. The node's
    /// full path is its name, below `parent_path` where that is given.
    pub fn traverse_tree(
        node: &SizeTreeNode,
        inputs: &mut Vec<(String, MetafileNode)>,
        parent_path: Option<String>,
    )
        ensures
            input_views(final(inputs)@) == input_views(old(inputs)@) + flatten(
                node.model(),
                full_path(
                    match parent_path {
                        Some(p) => Some(p@),
                        None => None,
                    },
                    node.model().name,
                ),
            ),
        decreases node.model(),
    {
        let path = match &parent_path {
            Some(p) => Self::child_path(p.as_str(), node.name().as_str()),
            None => node.name().clone(),
        };
        let count = node.child_count();
        let mut imports: Vec<String> = Vec::new();
        for i in 0..count
            invariant
                count == node.model().children.len(),
                text_views(imports@) == edges(path@, node.model().children).take(i as int),
        {
            let edge = Self::child_path(path.as_str(), node.child_at(i).name().as_str());
            let ghost seen = text_views(imports@);
            assert(edge@ == edges(path@, node.model().children)[i as int]);
            imports.push(edge);
            assert(text_views(imports@) =~= seen.push(edge@));
            assert(text_views(imports@) =~= edges(path@, node.model().children).take(i + 1));
        }
        assert(edges(path@, node.model().children).take(count as int) =~= edges(
            path@,
            node.model().children,
        ));
        let ghost before = input_views(inputs@);
        let own = MetafileNode { bytes: node.size(), imports };
        let ghost first = (path@, own@);
        inputs.push((path.clone(), own));
        assert(input_views(inputs@) =~= before + seq![first]);
        for i in 0..count
            invariant
                count == node.model().children.len(),
                input_views(inputs@) == before + seq![first] + flatten_children(
                    node.model().children,
                    Some(path@),
                    i as nat,
                ),
        {
            let ghost so_far = input_views(inputs@);
            Self::traverse_tree(node.child_at(i), inputs, Some(path.clone()));
            assert(input_views(inputs@) =~= before + seq![first] + flatten_children(
                node.model().children,
                Some(path@),
                (i + 1) as nat,
            ));
        }
        assert(input_views(inputs@) =~= before + flatten(node.model(), path@));
    }

    /// The metafile of a result: the inputs of its size tree, and the output
    /// named `wiztree` with the tree's total and the size of every input.
    pub fn document(result: &AnalysisResult) -> (doc: MetafileDocument)
        ensures
            input_views(doc.inputs@) == tree_inputs(build(entry_views(result.entries@))),
            doc.output_name@ == output_key(),
            doc.output.bytes == build(entry_views(result.entries@)).total,
            detail_views(doc.output.inputs@) == input_sizes(input_views(doc.inputs@)),
    {
        let root = Self::build_tree(result);
        let mut inputs: Vec<(String, MetafileNode)> = Vec::new();
        let count = root.child_count();
        assert(input_views(inputs@) =~= flatten_children(root.model().children, None, 0));
        for i in 0..count
            invariant
                count == root.model().children.len(),
                input_views(inputs@) == flatten_children(root.model().children, None, i as nat),
        {
            Self::traverse_tree(root.child_at(i), &mut inputs, None);
        }
        let mut sizes: Vec<(String, u64)> = Vec::new();
        let total = inputs.len();
        for i in 0..total
            invariant
                total == inputs@.len(),
                detail_views(sizes@) == input_sizes(input_views(inputs@)).take(i as int),
        {
            let ghost seen = detail_views(sizes@);
            sizes.push((inputs[i].0.clone(), inputs[i].1.bytes));
            assert(detail_views(sizes@) =~= seen.push((inputs@[i as int].0@, inputs@[i as int].1.bytes as nat)));
            assert(detail_views(sizes@) =~= input_sizes(input_views(inputs@)).take(i + 1));
        }
        assert(input_sizes(input_views(inputs@)).take(total as int) =~= input_sizes(
            input_views(inputs@),
        ));
        MetafileDocument {
            inputs,
            output_name: "wiztree".to_owned(),
            output: MetafileOutput { bytes: root.total_size(), inputs: sizes },
        }
    }

    /// What `format` returns for each outcome of the encoder: the text, or the
    /// encoder's error as a serialization error.
    pub fn encoded(json: Result<String, serde_json::Error>) -> (out: Result<String, AnalyzerError>)
        ensures
            out == match json {
                Ok(text) => Ok::<String, AnalyzerError>(text),
                Err(e) => Err(AnalyzerError::Serialization(e)),
            },
    {
        match json {
            Ok(text) => Ok(text),
            Err(e) => Err(AnalyzerError::from(e)),
        }
    }

    /// Whether a text of `len` bytes is too long for the script engines of web
    /// tools.
    pub fn too_large(len: usize) -> (large: bool)
        ensures
            large == (len > MAX_JSON_LENGTH),
    {
        len > MAX_JSON_LENGTH
    }

    fn child_path(parent: &str, name: &str) -> (path: String)
        ensures
            path@ == joined(parent@, name@),
    {
        let mut path = parent.to_owned();
        path.push('/');
        path.append(name);
        path
    }
}

impl OutputFormatter for MetafileFormatter {
    /// The metafile of the result ([`MetafileFormatter::document`]) as compact
    /// JSON. It fails only where the encoder does.
    fn format(&self, result: &AnalysisResult) -> (out: Result<String, AnalyzerError>)
        ensures
            out matches Err(e) ==> e is Serialization,
    {
        let doc = Self::document(result);
        let inputs = input_table(&doc.inputs);
        let output = output_record(&doc.output);
        Self::encoded(encode(inputs, doc.output_name, output))
    }
}

} // verus!
