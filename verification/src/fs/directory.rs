//! The directory node of the tree.

use vstd::prelude::*;

use super::node::{view_node, view_nodes, Node, NodeEnum, NodeView};

verus! {

broadcast use vstd::seq::group_seq_axioms;

/// The mathematical shape of a directory: its name and the shapes of its
/// entries, in listing order.
pub struct DirectoryView {
    pub name: Seq<char>,
    pub nodes: Seq<NodeView>,
}

/// Represents a directory in the remote filesystem.
///
/// A `Directory` contains a name and a list of nodes, which can be either
/// subdirectories or files, kept in listing order.
#[derive(Debug)]
pub struct Directory {
    /// The name of the directory.
    pub name: String,

    /// The nodes contained within the directory, in listing order.
    pub nodes: Vec<NodeEnum>,
}

impl View for Directory {
    type V = DirectoryView;

    open spec fn view(&self) -> DirectoryView {
        DirectoryView { name: self.name@, nodes: view_nodes(self.nodes@) }
    }
}

impl Directory {
    /// Creates a new, empty directory with the given name.
    pub fn new(name: String) -> (r: Self)
        ensures
            r@.name == name@,
            r@.nodes == Seq::<NodeView>::empty(),
            r.nodes@.len() == 0,
    {
        Directory { name, nodes: Vec::new() }
    }

    /// Adds a node to the end of the directory's entries.
    pub fn add<N>(&mut self, node: N) where NodeEnum: From<N>
        ensures
            <NodeEnum as vstd::std_specs::convert::FromSpec<N>>::obeys_from_spec()
                ==> final(self)@.nodes == old(self)@.nodes.push(
                    view_node(<NodeEnum as vstd::std_specs::convert::FromSpec<N>>::from_spec(node)),
                ),
            final(self)@.name == old(self)@.name,
            final(self).nodes@.len() == old(self).nodes@.len() + 1,
    {
        let n = NodeEnum::from(node);
        proof {
            lemma_view_nodes_push(self.nodes@, n);
        }
        self.nodes.push(n);
    }

    /// Renders the directory's contents depth first: each entry on its
    /// own connector-prefixed line, a directory's subtree immediately
    /// after its line.
    pub fn to_string_dfs(&self, indent: &str) -> (r: String)
        ensures
            r@ == spec_render_dfs(self@, indent@),
        decreases *self,
    {
        let mut ret = String::new();
        let n = self.nodes.len();
        let ghost entries = view_nodes(self.nodes@);
        proof {
            crate::fs::node::lemma_view_nodes(self.nodes@);
            assert(entries.skip(0) =~= entries);
        }
        let mut i: usize = 0;
        while i < n
            invariant
                n == self.nodes@.len(),
                entries == view_nodes(self.nodes@),
                entries.len() == n,
                0 <= i <= n,
                spec_render_entries(entries, indent@) == ret@ + spec_render_entries(
                    entries.skip(i as int),
                    indent@,
                ),
            decreases n - i,
        {
            let is_last = i == n - 1;
            let ghost pending = entries.skip(i as int);
            proof {
                crate::fs::node::lemma_view_nodes(self.nodes@);
                assert(pending[0] == entries[i as int]);
                assert(pending.drop_first() =~= entries.skip(i + 1));
                assert(entries[i as int] == view_node(self.nodes@[i as int]));
            }
            let ghost ret0 = ret@;
            let node = &self.nodes[i];
            ret.append(indent);
            if is_last {
                ret.append("└── ");
            } else {
                ret.append("├── ");
            }
            match node {
                NodeEnum::Directory(directory) => {
                    ret.append(directory.name.as_str());
                    ret.append("\n");
                    let mut child_indent = String::from_str(indent);
                    if is_last {
                        child_indent.append("    ");
                    } else {
                        child_indent.append("│    ");
                    }
                    let sub = directory.to_string_dfs(child_indent.as_str());
                    ret.append(sub.as_str());
                    proof {
                        assert(ret@ =~= ret0 + spec_render_entry(
                            entries[i as int],
                            indent@,
                            is_last,
                        ));
                    }
                },
                NodeEnum::File(file) => {
                    ret.append(file.name.as_str());
                    ret.append("\n");
                    proof {
                        assert(ret@ =~= ret0 + spec_render_entry(
                            entries[i as int],
                            indent@,
                            is_last,
                        ));
                    }
                },
            }
            proof {
                if i + 1 == n {
                    assert(spec_render_entries(pending, indent@) == spec_render_entry(
                        entries[i as int],
                        indent@,
                        true,
                    ));
                } else {
                    assert(spec_render_entries(pending, indent@) == spec_render_entry(
                        entries[i as int],
                        indent@,
                        false,
                    ) + spec_render_entries(entries.skip(i + 1), indent@));
                }
                assert(ret0 + spec_render_entries(pending, indent@) =~= ret@
                    + spec_render_entries(entries.skip(i + 1), indent@));
            }
            i = i + 1;
        }
        proof {
            assert(entries.skip(n as int).len() == 0);
            assert(ret@ + spec_render_entries(entries.skip(n as int), indent@) =~= ret@);
        }
        ret
    }

    /// Renders the directory's contents breadth first: the entries of
    /// each directory on consecutive lines, level by level, each line
    /// connector-prefixed under its own directory's indent.
    pub fn to_string_bfs(&self, indent: &str) -> (r: String)
        ensures
            r@ == spec_render_bfs(self@, indent@),
    {
        let mut result = String::new();
        let mut queue: Vec<(&Directory, String)> = Vec::new();
        queue.push((self, String::from_str(indent)));
        let mut head: usize = 0;
        proof {
            assert(frames_of(queue@).skip(0) =~= frames_of(queue@));
            assert(frames_of(queue@) =~= seq![(view_nodes(self.nodes@), indent@)]);
        }
        while head < queue.len()
            invariant
                0 <= head <= queue@.len(),
                spec_render_bfs(self@, indent@) == result@ + spec_render_bfs_frames(
                    frames_of(queue@).skip(head as int),
                ),
            decreases frames_size(frames_of(queue@).skip(head as int)), queue@.len() - head,
        {
            let d: &Directory = queue[head].0;
            let ind: String = queue[head].1.clone();
            let ghost entries = view_nodes(d.nodes@);
            let ghost rest0 = frames_of(queue@).skip(head as int + 1);
            let ghost m0 = frames_size(frames_of(queue@).skip(head as int));
            let ghost qe = queue@;
            proof {
                crate::fs::node::lemma_view_nodes(d.nodes@);
                let front = frames_of(queue@).skip(head as int);
                assert(front[0] == (entries, ind@));
                assert(front.drop_first() =~= rest0);
                assert(front =~= seq![(entries, ind@)] + rest0);
                assert(frames_size(front) == nodes_size(entries) + frames_size(rest0));
                assert(entries.skip(0) =~= entries);
                assert(seq![(entries.skip(0), ind@)] + rest0 =~= seq![(entries, ind@)] + rest0);
            }
            let n = d.nodes.len();
            let mut j: usize = 0;
            while j < n
                invariant
                    0 <= j <= n,
                    n == d.nodes@.len(),
                    entries == view_nodes(d.nodes@),
                    entries.len() == n,
                    head < queue@.len(),
                    n == 0 ==> queue@ == qe,
                    spec_render_bfs(self@, indent@) == result@ + spec_render_bfs_frames(
                        seq![(entries.skip(j as int), ind@)] + frames_of(queue@).skip(
                            head as int + 1,
                        ),
                    ),
                    frames_size(
                        seq![(entries.skip(j as int), ind@)] + frames_of(queue@).skip(
                            head as int + 1,
                        ),
                    ) + j == m0,
                decreases n - j,
            {
                let is_last = j == n - 1;
                let ghost frames_now = seq![(entries.skip(j as int), ind@)] + frames_of(
                    queue@,
                ).skip(head as int + 1);
                let ghost rest = frames_of(queue@).skip(head as int + 1);
                let ghost result0 = result@;
                proof {
                    crate::fs::node::lemma_view_nodes(d.nodes@);
                    assert(frames_now[0] == (entries.skip(j as int), ind@));
                    assert(frames_now.drop_first() =~= rest);
                    assert(entries.skip(j as int)[0] == entries[j as int]);
                    assert(entries.skip(j as int).drop_first() =~= entries.skip(j + 1));
                    assert(entries[j as int] == view_node(d.nodes@[j as int]));
                    assert(frames_size(frames_now) == nodes_size(entries.skip(j as int))
                        + frames_size(rest));
                    assert(nodes_size(entries.skip(j as int)) == node_size(entries[j as int])
                        + nodes_size(entries.skip(j + 1)));
                }
                let node = &d.nodes[j];
                result.append(ind.as_str());
                if is_last {
                    result.append("└── ");
                } else {
                    result.append("├── ");
                }
                match node {
                    NodeEnum::Directory(subdir) => {
                        result.append(subdir.name.as_str());
                        result.append("\n");
                        let mut child_indent = ind.clone();
                        if is_last {
                            child_indent.append("    ");
                        } else {
                            child_indent.append("|   ");
                        }
                        let ghost q0 = queue@;
                        queue.push((subdir, child_indent));
                        proof {
                            let n0 = entries[j as int];
                            let children = n0->Directory_nodes;
                            let cont = if is_last {
                                "    "@
                            } else {
                                "|   "@
                            };
                            let cf = (children, ind@ + cont);
                            assert(frames_of(queue@).skip(head as int + 1) =~= rest.push(cf));
                            let popped = seq![(entries.skip(j + 1), ind@)] + rest;
                            assert(popped[0] == (entries.skip(j + 1), ind@));
                            assert(popped.drop_first() =~= rest);
                            assert(popped.push(cf) =~= seq![(entries.skip(j + 1), ind@)]
                                + rest.push(cf));
                            assert(spec_render_bfs_frames(frames_now) == (ind@ + (if is_last {
                                "└── "@
                            } else {
                                "├── "@
                            }) + n0.name() + "\n"@) + spec_render_bfs_frames(popped.push(cf)));
                            assert(result@ =~= result0 + (ind@ + (if is_last {
                                "└── "@
                            } else {
                                "├── "@
                            }) + n0.name() + "\n"@));
                            assert(frames_size(popped) == nodes_size(entries.skip(j + 1))
                                + frames_size(rest));
                            lemma_frames_size_snoc(popped, cf);
                        }
                    },
                    NodeEnum::File(file) => {
                        result.append(file.name.as_str());
                        result.append("\n");
                        proof {
                            let n0 = entries[j as int];
                            let popped = seq![(entries.skip(j + 1), ind@)] + rest;
                            assert(popped[0] == (entries.skip(j + 1), ind@));
                            assert(popped.drop_first() =~= rest);
                            assert(spec_render_bfs_frames(frames_now) == (ind@ + (if is_last {
                                "└── "@
                            } else {
                                "├── "@
                            }) + n0.name() + "\n"@) + spec_render_bfs_frames(popped));
                            assert(result@ =~= result0 + (ind@ + (if is_last {
                                "└── "@
                            } else {
                                "├── "@
                            }) + n0.name() + "\n"@));
                            assert(frames_size(popped) == nodes_size(entries.skip(j + 1))
                                + frames_size(rest));
                        }
                    },
                }
                j = j + 1;
            }
            proof {
                let fin = seq![(entries.skip(n as int), ind@)] + frames_of(queue@).skip(
                    head as int + 1,
                );
                assert(entries.skip(n as int).len() == 0);
                assert(fin[0] == (entries.skip(n as int), ind@));
                assert(fin.drop_first() =~= frames_of(queue@).skip(head as int + 1));
                assert(spec_render_bfs_frames(fin) == spec_render_bfs_frames(
                    frames_of(queue@).skip(head as int + 1),
                ));
                assert(frames_size(fin) == frames_size(frames_of(queue@).skip(head as int + 1)));
            }
            head = head + 1;
        }
        proof {
            assert(frames_of(queue@).skip(head as int).len() == 0);
            assert(result@ + spec_render_bfs_frames(frames_of(queue@).skip(head as int))
                =~= result@);
        }
        result
    }
}

/// Appending one value appends its shape.
proof fn lemma_view_nodes_push(s: Seq<NodeEnum>, n: NodeEnum)
    ensures
        view_nodes(s.push(n)) == view_nodes(s).push(view_node(n)),
{
    assert(s.push(n).drop_last() =~= s);
    assert(s.push(n).last() == n);
}

/// One rendered entry line, and for a directory its rendered subtree.
///
/// An entry line is the indent, a connector (`└── ` for the last entry,
/// `├── ` for any other), the name and a newline; a directory's children
/// follow, indented further with a blank continuation after the last
/// entry and a `│` continuation otherwise.
pub open spec fn spec_render_entry(n: NodeView, indent: Seq<char>, is_last: bool) -> Seq<char>
    decreases n,
{
    let prefix = if is_last {
        "└── "@
    } else {
        "├── "@
    };
    match n {
        NodeView::File { name } => indent + prefix + name + "\n"@,
        NodeView::Directory { name, nodes } => {
            let cont = if is_last {
                "    "@
            } else {
                "│    "@
            };
            indent + prefix + name + "\n"@ + spec_render_entries(nodes, indent + cont)
        },
    }
}

/// The depth-first rendering of a sequence of entries.
pub open spec fn spec_render_entries(nodes: Seq<NodeView>, indent: Seq<char>) -> Seq<char>
    decreases nodes,
{
    if nodes.len() == 0 {
        Seq::empty()
    } else if nodes.len() == 1 {
        spec_render_entry(nodes[0], indent, true)
    } else {
        spec_render_entry(nodes[0], indent, false) + spec_render_entries(
            nodes.drop_first(),
            indent,
        )
    }
}

/// The depth-first rendering of a directory's contents.
pub open spec fn spec_render_dfs(d: DirectoryView, indent: Seq<char>) -> Seq<char> {
    spec_render_entries(d.nodes, indent)
}

/// The number of nodes in a tree, itself included.
pub open spec fn node_size(n: NodeView) -> nat
    decreases n,
{
    match n {
        NodeView::Directory { nodes, .. } => 1 + nodes_size(nodes),
        NodeView::File { .. } => 1,
    }
}

/// The number of nodes in a forest.
pub open spec fn nodes_size(s: Seq<NodeView>) -> nat
    decreases s,
{
    if s.len() == 0 {
        0
    } else {
        node_size(s[0]) + nodes_size(s.drop_first())
    }
}

/// The number of nodes a queue of rendering frames still has to visit.
pub open spec fn frames_size(frames: Seq<(Seq<NodeView>, Seq<char>)>) -> nat
    decreases frames,
{
    if frames.len() == 0 {
        0
    } else {
        nodes_size(frames[0].0) + frames_size(frames.drop_first())
    }
}

/// Queueing one more frame adds its nodes to the count.
proof fn lemma_frames_size_snoc(
    frames: Seq<(Seq<NodeView>, Seq<char>)>,
    f: (Seq<NodeView>, Seq<char>),
)
    ensures
        frames_size(frames.push(f)) == frames_size(frames) + nodes_size(f.0),
    decreases frames,
{
    if frames.len() == 0 {
        assert(frames.push(f)[0] == f);
        assert(frames.push(f).drop_first() =~= Seq::<(Seq<NodeView>, Seq<char>)>::empty());
        assert(frames_size(frames.push(f)) == nodes_size(frames.push(f)[0].0) + frames_size(
            frames.push(f).drop_first(),
        ));
    } else {
        assert(frames.push(f)[0] == frames[0]);
        assert(frames.push(f).drop_first() =~= frames.drop_first().push(f));
        lemma_frames_size_snoc(frames.drop_first(), f);
        assert(frames_size(frames.push(f)) == nodes_size(frames.push(f)[0].0) + frames_size(
            frames.push(f).drop_first(),
        ));
        assert(frames_size(frames) == nodes_size(frames[0].0) + frames_size(frames.drop_first()));
    }
}

/// The breadth-first rendering of a queue of frames, each a sequence of
/// entries still to print at a given indent.  The front frame's first
/// entry is printed; a directory entry's contents join the back of the
/// queue, indented further.
pub open spec fn spec_render_bfs_frames(frames: Seq<(Seq<NodeView>, Seq<char>)>) -> Seq<char>
    decreases frames_size(frames), frames.len(),
    via spec_render_bfs_decreases
{
    if frames.len() == 0 {
        Seq::empty()
    } else {
        let nodes = frames[0].0;
        let indent = frames[0].1;
        if nodes.len() == 0 {
            spec_render_bfs_frames(frames.drop_first())
        } else {
            let n0 = nodes[0];
            let is_last = nodes.len() == 1;
            let prefix = if is_last {
                "└── "@
            } else {
                "├── "@
            };
            let line = indent + prefix + n0.name() + "\n"@;
            let popped = seq![(nodes.drop_first(), indent)] + frames.drop_first();
            match n0 {
                NodeView::Directory { name, nodes: children } => {
                    let cont = if is_last {
                        "    "@
                    } else {
                        "|   "@
                    };
                    line + spec_render_bfs_frames(popped.push((children, indent + cont)))
                },
                NodeView::File { .. } => line + spec_render_bfs_frames(popped),
            }
        }
    }
}

#[via_fn]
proof fn spec_render_bfs_decreases(frames: Seq<(Seq<NodeView>, Seq<char>)>) {
    if frames.len() > 0 {
        let nodes = frames[0].0;
        let indent = frames[0].1;
        if nodes.len() > 0 {
            let n0 = nodes[0];
            let popped = seq![(nodes.drop_first(), indent)] + frames.drop_first();
            assert(popped[0] == (nodes.drop_first(), indent));
            assert(popped.drop_first() =~= frames.drop_first());
            assert(frames_size(frames) == nodes_size(nodes) + frames_size(frames.drop_first()));
            assert(nodes_size(nodes) == node_size(n0) + nodes_size(nodes.drop_first()));
            assert(frames_size(popped) == nodes_size(nodes.drop_first()) + frames_size(
                frames.drop_first(),
            ));
            match n0 {
                NodeView::Directory { name, nodes: children } => {
                    let is_last = nodes.len() == 1;
                    let cont = if is_last {
                        "    "@
                    } else {
                        "|   "@
                    };
                    lemma_frames_size_snoc(popped, (children, indent + cont));
                },
                NodeView::File { .. } => {},
            }
        }
    }
}

/// The breadth-first rendering of a directory's contents: the entries of
/// each directory on consecutive lines, level by level.
pub open spec fn spec_render_bfs(d: DirectoryView, indent: Seq<char>) -> Seq<char> {
    spec_render_bfs_frames(seq![(d.nodes, indent)])
}

/// The rendering frames a queue of directories and indents stands for.
pub open spec fn frames_of(q: Seq<(&Directory, String)>) -> Seq<(Seq<NodeView>, Seq<char>)> {
    Seq::new(q.len(), |i: int| (view_nodes(q[i].0.nodes@), q[i].1@))
}

impl Node for Directory {
    open spec fn spec_name(&self) -> Seq<char> {
        self.name@
    }

    fn name(&self) -> (r: &str)
        ensures
            r@ == self.spec_name(),
    {
        self.name.as_str()
    }
}

} // verus!
