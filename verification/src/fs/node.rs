//! Tree nodes: a node is either a directory or a file.

use vstd::prelude::*;

use super::directory::Directory;
use super::file::File;

verus! {

broadcast use vstd::seq::group_seq_axioms;

/// The mathematical shape of a node: a name, and for directories the
/// sequence of child shapes in listing order.
pub enum NodeView {
    Directory { name: Seq<char>, nodes: Seq<NodeView> },
    File { name: Seq<char> },
}

impl NodeView {
    /// The name of the node, whichever variant it is.
    pub open spec fn name(self) -> Seq<char> {
        match self {
            NodeView::Directory { name, .. } => name,
            NodeView::File { name } => name,
        }
    }

    /// The children of the node: empty for a file.
    pub open spec fn children(self) -> Seq<NodeView> {
        match self {
            NodeView::Directory { nodes, .. } => nodes,
            NodeView::File { .. } => Seq::empty(),
        }
    }

    pub open spec fn is_directory(self) -> bool {
        self is Directory
    }
}

/// The shape of a node value.
pub open spec fn view_node(n: NodeEnum) -> NodeView
    decreases n,
{
    match n {
        NodeEnum::Directory(d) => NodeView::Directory {
            name: d.name@,
            nodes: view_nodes(d.nodes@),
        },
        NodeEnum::File(f) => NodeView::File { name: f.name@ },
    }
}

/// The shapes of a sequence of node values, in order.
pub open spec fn view_nodes(s: Seq<NodeEnum>) -> Seq<NodeView>
    decreases s,
{
    if s.len() == 0 {
        Seq::empty()
    } else {
        view_nodes(s.drop_last()).push(view_node(s.last()))
    }
}

/// Pointwise characterisation of `view_nodes`.
pub proof fn lemma_view_nodes(s: Seq<NodeEnum>)
    ensures
        view_nodes(s).len() == s.len(),
        forall|i: int| 0 <= i < s.len() ==> view_nodes(s)[i] == view_node(s[i]),
    decreases s,
{
    if s.len() > 0 {
        lemma_view_nodes(s.drop_last());
    }
}

/// A node in the remote filesystem tree.
///
/// Every node has a name; directories also have contents.
pub trait Node {
    /// The name of the node, as a sequence of characters.
    spec fn spec_name(&self) -> Seq<char>;

    /// Returns the name of the node.
    fn name(&self) -> (r: &str)
        ensures
            r@ == self.spec_name(),
    ;
}

/// Either a file or a directory in the remote filesystem.
#[derive(Debug)]
pub enum NodeEnum {
    /// A directory node.
    Directory(Directory),

    /// A file node.
    File(File),
}

impl View for NodeEnum {
    type V = NodeView;

    open spec fn view(&self) -> NodeView {
        view_node(*self)
    }
}

impl Node for NodeEnum {
    open spec fn spec_name(&self) -> Seq<char> {
        self@.name()
    }

    fn name(&self) -> (r: &str)
        ensures
            r@ == self.spec_name(),
    {
        match self {
            NodeEnum::Directory(dir) => dir.name(),
            NodeEnum::File(file) => file.name(),
        }
    }
}

/// What rendering a node from the tree root looks like: a `.` line for
/// the root, then the depth-first rendering of its contents; a lone file
/// renders as a single connector line.
pub open spec fn spec_node_to_string(n: NodeView, indent: Seq<char>) -> Seq<char> {
    match n {
        NodeView::Directory { name, nodes } => ".\n"@ + crate::fs::directory::spec_render_entries(
            nodes,
            indent,
        ),
        NodeView::File { name } => ".\n└── "@ + name,
    }
}

impl NodeEnum {
    /// Renders the node as the root of a tree, depth first.
    pub fn to_string(&self, indent: &str) -> (r: String)
        ensures
            r@ == spec_node_to_string(self@, indent@),
    {
        match self {
            NodeEnum::Directory(dir) => {
                let mut s = String::from_str(".\n");
                let body = dir.to_string_dfs(indent);
                s.append(body.as_str());
                s
            },
            NodeEnum::File(file) => {
                let mut s = String::from_str(".\n└── ");
                s.append(file.name.as_str());
                s
            },
        }
    }
}

/// The keyed-mapping form of a tree: a directory is the ordered
/// name-to-child entries of its contents, a file is its name alone.
pub enum MappingView {
    Entries(Seq<(Seq<char>, MappingView)>),
    Leaf(Seq<char>),
}

/// The keyed-mapping form of a node's contents.
pub open spec fn spec_mapping(n: NodeView) -> MappingView
    decreases n,
{
    match n {
        NodeView::File { name } => MappingView::Leaf(name),
        NodeView::Directory { name, nodes } => MappingView::Entries(spec_mapping_entries(nodes)),
    }
}

/// The keyed entries of a sequence of nodes, in order.
pub open spec fn spec_mapping_entries(s: Seq<NodeView>) -> Seq<(Seq<char>, MappingView)>
    decreases s,
{
    if s.len() == 0 {
        Seq::empty()
    } else {
        seq![(s[0].name(), spec_mapping(s[0]))] + spec_mapping_entries(s.drop_first())
    }
}

/// The tree a keyed-mapping form describes, given the name its key gave
/// it: a leaf is a file named by its key, entries are a directory's
/// contents.
pub open spec fn spec_unmapping(name: Seq<char>, m: MappingView) -> NodeView
    decreases m,
{
    match m {
        MappingView::Leaf(_) => NodeView::File { name },
        MappingView::Entries(pairs) => NodeView::Directory {
            name,
            nodes: spec_unmapping_entries(pairs),
        },
    }
}

/// The nodes a sequence of keyed entries describes, in order.
pub open spec fn spec_unmapping_entries(pairs: Seq<(Seq<char>, MappingView)>) -> Seq<NodeView>
    decreases pairs,
{
    if pairs.len() == 0 {
        Seq::empty()
    } else {
        seq![spec_unmapping(pairs[0].0, pairs[0].1)] + spec_unmapping_entries(pairs.drop_first())
    }
}

/// Every name in a tree, in depth-first pre-order: the node's own name,
/// then the names below each entry in order.
pub open spec fn spec_tree_names(n: NodeView) -> Seq<Seq<char>>
    decreases n,
{
    match n {
        NodeView::File { name } => seq![name],
        NodeView::Directory { name, nodes } => seq![name] + spec_forest_names(nodes),
    }
}

/// Every name below a sequence of nodes, in order.
pub open spec fn spec_forest_names(s: Seq<NodeView>) -> Seq<Seq<char>>
    decreases s,
{
    if s.len() == 0 {
        Seq::empty()
    } else {
        spec_tree_names(s[0]) + spec_forest_names(s.drop_first())
    }
}

/// Every name a keyed-mapping form references, given the key that named
/// it, in the same pre-order.
pub open spec fn spec_mapping_names(key: Seq<char>, m: MappingView) -> Seq<Seq<char>>
    decreases m,
{
    match m {
        MappingView::Leaf(_) => seq![key],
        MappingView::Entries(pairs) => seq![key] + spec_entries_names(pairs),
    }
}

/// Every name a sequence of keyed entries references, in order.
pub open spec fn spec_entries_names(pairs: Seq<(Seq<char>, MappingView)>) -> Seq<Seq<char>>
    decreases pairs,
{
    if pairs.len() == 0 {
        Seq::empty()
    } else {
        spec_mapping_names(pairs[0].0, pairs[0].1) + spec_entries_names(pairs.drop_first())
    }
}

/// The height of a tree: the number of nodes on its longest path.
pub open spec fn spec_height(n: NodeView) -> nat
    decreases n,
{
    match n {
        NodeView::File { .. } => 1,
        NodeView::Directory { nodes, .. } => 1 + spec_forest_height(nodes),
    }
}

/// The greatest height among a sequence of nodes.
pub open spec fn spec_forest_height(s: Seq<NodeView>) -> nat
    decreases s,
{
    if s.len() == 0 {
        0
    } else if spec_height(s[0]) >= spec_forest_height(s.drop_first()) {
        spec_height(s[0])
    } else {
        spec_forest_height(s.drop_first())
    }
}

/// A forest of nodes no taller than `b` is itself no taller than `b`.
pub proof fn lemma_forest_height_bound(s: Seq<NodeView>, b: nat)
    requires
        forall|j: int| 0 <= j < s.len() ==> spec_height(#[trigger] s[j]) <= b,
    ensures
        spec_forest_height(s) <= b,
    decreases s,
{
    if s.len() > 0 {
        assert(forall|j: int|
            0 <= j < s.drop_first().len() ==> spec_height(#[trigger] s.drop_first()[j]) <= b);
        lemma_forest_height_bound(s.drop_first(), b);
    }
}

/// Round trip: the keyed-mapping form of a tree, read back under the
/// tree's own name, is the tree itself.  The structured form loses
/// nothing: both renderings reference the same names and nesting.
pub proof fn lemma_mapping_round_trip(n: NodeView)
    ensures
        spec_unmapping(n.name(), spec_mapping(n)) == n,
    decreases n,
{
    match n {
        NodeView::File { name } => {
        },
        NodeView::Directory { name, nodes } => {
            lemma_mapping_entries_round_trip(nodes);
        },
    }
}

/// Round trip for a sequence of entries.
pub proof fn lemma_mapping_entries_round_trip(s: Seq<NodeView>)
    ensures
        spec_unmapping_entries(spec_mapping_entries(s)) == s,
    decreases s,
{
    if s.len() == 0 {
        assert(spec_unmapping_entries(spec_mapping_entries(s)) =~= s);
    } else {
        lemma_mapping_round_trip(s[0]);
        lemma_mapping_entries_round_trip(s.drop_first());
        let pairs = spec_mapping_entries(s);
        assert(pairs[0] == (s[0].name(), spec_mapping(s[0])));
        assert(pairs.drop_first() =~= spec_mapping_entries(s.drop_first()));
        assert(spec_unmapping_entries(pairs) =~= s);
    }
}

/// The names a tree's keyed-mapping form references are exactly the
/// tree's names, in the same order.
pub proof fn lemma_mapping_names(n: NodeView)
    ensures
        spec_mapping_names(n.name(), spec_mapping(n)) == spec_tree_names(n),
    decreases n,
{
    match n {
        NodeView::File { name } => {
        },
        NodeView::Directory { name, nodes } => {
            lemma_entries_names(nodes);
        },
    }
}

/// The names of a sequence of keyed entries are the names below the
/// nodes they came from.
pub proof fn lemma_entries_names(s: Seq<NodeView>)
    ensures
        spec_entries_names(spec_mapping_entries(s)) == spec_forest_names(s),
    decreases s,
{
    if s.len() == 0 {
        assert(spec_entries_names(spec_mapping_entries(s)) =~= spec_forest_names(s));
    } else {
        lemma_mapping_names(s[0]);
        lemma_entries_names(s.drop_first());
        let pairs = spec_mapping_entries(s);
        assert(pairs[0] == (s[0].name(), spec_mapping(s[0])));
        assert(pairs.drop_first() =~= spec_mapping_entries(s.drop_first()));
        assert(spec_entries_names(pairs) =~= spec_forest_names(s));
    }
}

impl vstd::std_specs::convert::FromSpecImpl<File> for NodeEnum {
    open spec fn obeys_from_spec() -> bool {
        true
    }

    open spec fn from_spec(file: File) -> NodeEnum {
        NodeEnum::File(file)
    }
}

/// Allows adding a `File` to a directory without wrapping it by hand.
impl From<File> for NodeEnum {
    fn from(file: File) -> (r: NodeEnum) {
        NodeEnum::File(file)
    }
}

impl vstd::std_specs::convert::FromSpecImpl<Directory> for NodeEnum {
    open spec fn obeys_from_spec() -> bool {
        true
    }

    open spec fn from_spec(directory: Directory) -> NodeEnum {
        NodeEnum::Directory(directory)
    }
}

/// Allows adding a `Directory` to another directory without wrapping it by
/// hand.
impl From<Directory> for NodeEnum {
    fn from(directory: Directory) -> (r: NodeEnum) {
        NodeEnum::Directory(directory)
    }
}

} // verus!
