//! The depth-bounded crawl engine.
//!
//! The crawler is an event-driven state machine.  It holds the partially
//! built tree in a flat arena of directory nodes, referencing children by
//! index, and a work queue of frames, each naming a directory whose
//! listing is still owed, the path that reaches it, and the remaining
//! depth below it.  The orchestrating client asks for the next action,
//! performs the protocol work (navigate, negotiate passive mode, `LIST`),
//! and hands the listing — or a reconnect notice — back:
//!
//! - `ListPath(p)`: fetch the listing of the directory at path `p`;
//! - on a listing, the frame's directory gains one child per listing
//!   line, and each subdirectory still within the depth bound joins the
//!   queue;
//! - on a reconnect notice the whole crawl restarts from scratch: a
//!   partially built tree is never kept across a transparent reconnect;
//! - when the queue is empty the tree is complete.
//!
//! Depth-first and breadth-first crawls differ only in which end of the
//! queue the next frame is taken from.

use vstd::prelude::*;

use crate::chars::view_strings;
use crate::fs::directory::Directory;
use crate::fs::node::{NodeEnum, NodeView};
use crate::ftp::listing::{is_directory, parse_filename, spec_is_directory, spec_parse_filename};
use crate::ftp::response::{view_responses, Responses};

verus! {

broadcast use vstd::seq::group_seq_axioms;

/// One directory being built: its name, and its children in listing
/// order.
pub struct DirNode {
    /// The directory's name.
    pub name: String,

    /// The children, in the order the listing gave them.
    pub children: Vec<ChildRef>,
}

/// A child of an arena directory: a file with its name, or another arena
/// directory by index.
pub enum ChildRef {
    /// A subdirectory, as an index into the arena.
    Directory(usize),

    /// A file, by name.
    File(String),
}

/// One unit of owed work: the directory at `dir` still needs the listing
/// of the remote directory reached by `path`, and may descend `depth`
/// more levels.
pub struct Frame {
    /// The arena index of the directory to fill.
    pub dir: usize,

    /// The names that lead from the remote root to this directory.
    pub path: Vec<String>,

    /// How many further levels may be descended below this directory.
    pub depth: usize,
}

/// What the orchestrating client must do next.
pub enum CrawlAction {
    /// Fetch the listing of the directory reached by this path: change
    /// directory along it, negotiate passive mode, send `LIST`, read the
    /// listing from the data connection, and change back up.
    ListPath(Vec<String>),

    /// The crawl is complete: take the tree.
    Finished,
}

/// The view a child reference yields, given the arena it points into and
/// the index of the directory that holds it.
pub open spec fn spec_child_of(arena: Seq<DirNode>, c: ChildRef, i: int) -> NodeView
    decreases arena.len() - i, 0nat,
{
    match c {
        ChildRef::File(name) => NodeView::File { name: name@ },
        ChildRef::Directory(k) => if i < k < arena.len() {
            spec_tree_of(arena, k as int)
        } else {
            NodeView::File { name: Seq::empty() }
        },
    }
}

/// The tree rooted at arena index `i`.
pub open spec fn spec_tree_of(arena: Seq<DirNode>, i: int) -> NodeView
    decreases arena.len() - i, 1nat,
{
    if 0 <= i < arena.len() {
        NodeView::Directory {
            name: arena[i].name@,
            nodes: Seq::new(
                arena[i].children@.len(),
                |j: int| spec_child_of(arena, arena[i].children@[j], i),
            ),
        }
    } else {
        NodeView::File { name: Seq::empty() }
    }
}

/// Arena sanity: every subdirectory reference points forward, past its
/// parent and within bounds.  This is what makes the arena a tree: a
/// child index is always strictly greater than its parent's, so no node
/// is shared or re-entered.
pub open spec fn wf_arena(arena: Seq<DirNode>) -> bool {
    forall|i: int, j: int|
        0 <= i < arena.len() && 0 <= j < arena[i].children@.len() ==> match #[trigger] arena[i].children@[j] {
            ChildRef::Directory(k) => i < k < arena.len(),
            ChildRef::File(_) => true,
        }
}

/// The crawl state machine.
pub struct Crawler {
    /// Whether frames are taken breadth first (from the front of the
    /// queue) or depth first (from the back).
    pub bfs: bool,

    /// The depth bound the crawl was started with.
    pub depth: usize,

    /// All directory nodes created so far; index 0 is the root.
    pub arena: Vec<DirNode>,

    /// The owed listings.
    pub queue: Vec<Frame>,

    /// The level of each arena directory: 0 for the root, one more for
    /// each step down.
    pub levels: Ghost<Seq<int>>,
}

impl Crawler {
    /// The position in the queue of the frame to work on next.
    pub open spec fn active_at(&self) -> int {
        if self.bfs {
            0
        } else {
            self.queue@.len() - 1
        }
    }

    /// The frame to work on next.
    pub open spec fn active_frame(&self) -> Frame {
        self.queue@[self.active_at()]
    }

    /// The machine's invariant.
    ///
    /// The arena is a tree; every queued frame names a directory that is
    /// still empty, no two frames name the same directory, and a frame's
    /// remaining depth plus its directory's level is the depth bound;
    /// levels never pass `depth + 1`, and a directory at level
    /// `depth + 1` stays empty.
    pub open spec fn wf(&self) -> bool {
        &&& self.arena@.len() >= 1
        &&& wf_arena(self.arena@)
        &&& self.levels@.len() == self.arena@.len()
        &&& self.levels@[0] == 0
        &&& forall|i: int, j: int|
            0 <= i < self.arena@.len() && 0 <= j < self.arena@[i].children@.len()
                ==> match #[trigger] self.arena@[i].children@[j] {
                ChildRef::Directory(k) => self.levels@[k as int] == self.levels@[i] + 1,
                ChildRef::File(_) => true,
            }
        &&& forall|i: int|
            0 <= i < self.arena@.len() ==> 0 <= #[trigger] self.levels@[i] <= self.depth + 1
        &&& forall|i: int|
            0 <= i < self.arena@.len() && self.levels@[i] == self.depth + 1
                ==> self.arena@[i].children@.len() == 0
        &&& forall|f: int|
            0 <= f < self.queue@.len() ==> {
                let fr = #[trigger] self.queue@[f];
                &&& fr.dir < self.arena@.len()
                &&& self.arena@[fr.dir as int].children@.len() == 0
                &&& fr.depth <= self.depth
                &&& self.levels@[fr.dir as int] + fr.depth == self.depth
            }
        &&& forall|f: int, g: int|
            0 <= f < g < self.queue@.len() ==> self.queue@[f].dir != self.queue@[g].dir
    }

    /// The state a crawl starts in: one empty root directory named `.`,
    /// and one frame owing the root listing at full depth.
    pub open spec fn is_start_state(&self) -> bool {
        &&& self.arena@.len() == 1
        &&& self.arena@[0].name@ == "."@
        &&& self.arena@[0].children@.len() == 0
        &&& self.queue@.len() == 1
        &&& self.queue@[0].dir == 0
        &&& self.queue@[0].path@.len() == 0
        &&& self.queue@[0].depth == self.depth
    }

    /// Starts a crawl with the given depth bound and strategy.
    pub fn new(depth: usize, bfs: bool) -> (c: Crawler)
        ensures
            c.wf(),
            c.is_start_state(),
            c.depth == depth,
            c.bfs == bfs,
    {
        let mut arena: Vec<DirNode> = Vec::new();
        arena.push(DirNode { name: String::from_str("."), children: Vec::new() });
        let mut queue: Vec<Frame> = Vec::new();
        queue.push(Frame { dir: 0, path: Vec::new(), depth });
        Crawler { bfs, depth, arena, queue, levels: Ghost(Seq::empty().push(0int)) }
    }

    /// A transparent reconnect happened: all work in flight is thrown
    /// away and the crawl restarts from scratch.  Nothing added since the
    /// start survives: a partial tree is never kept.
    pub fn on_reconnected(&mut self)
        ensures
            final(self).wf(),
            final(self).is_start_state(),
            final(self).depth == old(self).depth,
            final(self).bfs == old(self).bfs,
    {
        let depth = self.depth;
        let mut arena: Vec<DirNode> = Vec::new();
        arena.push(DirNode { name: String::from_str("."), children: Vec::new() });
        let mut queue: Vec<Frame> = Vec::new();
        queue.push(Frame { dir: 0, path: Vec::new(), depth });
        self.arena = arena;
        self.queue = queue;
        self.levels = Ghost(Seq::empty().push(0int));
    }

    /// What to do next: fetch the listing owed by the next frame, or
    /// finish when none is owed.
    pub fn next_action(&self) -> (a: CrawlAction)
        requires
            self.wf(),
        ensures
            (self.queue@.len() == 0) <==> (a is Finished),
            self.queue@.len() > 0 ==> (a matches CrawlAction::ListPath(p) && view_strings(p@)
                == view_strings(self.active_frame().path@)),
    {
        if self.queue.len() == 0 {
            CrawlAction::Finished
        } else {
            let at = if self.bfs {
                0
            } else {
                self.queue.len() - 1
            };
            let path = clone_path(&self.queue[at].path);
            CrawlAction::ListPath(path)
        }
    }

    /// Builds the finished tree.
    ///
    /// With the queue empty no directory has a listing owed, so the tree
    /// is complete.  Its directories never reach more than `depth`
    /// levels below the root's entries; with `depth == 0` every
    /// directory in the root listing is present but has no children.
    pub fn tree(&self) -> (r: NodeEnum)
        requires
            self.wf(),
            self.queue@.len() == 0,
        ensures
            r@ == spec_tree_of(self.arena@, 0),
            crate::fs::node::spec_height(r@) <= self.depth + 2,
            self.depth == 0 ==> forall|j: int|
                0 <= j < r@.children().len() ==> #[trigger] r@.children()[j].children().len() == 0,
    {
        let d = build_tree(&self.arena, 0);
        proof {
            lemma_tree_height(self.arena@, self.levels@, self.depth as int, 0);
            if self.depth == 0 {
                let t = spec_tree_of(self.arena@, 0);
                assert forall|j: int| 0 <= j < t.children().len() implies #[trigger] t.children()[j]
                    .children().len() == 0 by {
                    let c = self.arena@[0].children@[j];
                    assert(t.children()[j] == spec_child_of(self.arena@, c, 0));
                    match c {
                        ChildRef::Directory(k) => {
                            assert(self.levels@[k as int] == 1);
                            assert(self.arena@[k as int].children@.len() == 0);
                        },
                        ChildRef::File(_) => {},
                    }
                }
            }
        }
        NodeEnum::Directory(d)
    }
}

/// The number of directory entries among the first `j` listing entries.
pub open spec fn dir_count(entries: Seq<(u16, Seq<char>)>, j: int) -> int
    decreases j,
{
    if j <= 0 {
        0
    } else {
        dir_count(entries, j - 1) + if spec_is_directory(entries[j - 1].1) {
            1int
        } else {
            0int
        }
    }
}

/// Whether a listing entry is descended into: a directory, with a reply
/// code below 500, while depth remains.
pub open spec fn spec_descends(e: (u16, Seq<char>), depth: int) -> bool {
    spec_is_directory(e.1) && e.0 < 500 && depth > 0
}

/// The number of entries among the first `j` that join the queue when
/// the frame has `depth` levels left.
pub open spec fn enq_count(entries: Seq<(u16, Seq<char>)>, j: int, depth: int) -> int
    decreases j,
{
    if j <= 0 {
        0
    } else {
        enq_count(entries, j - 1, depth) + if spec_descends(entries[j - 1], depth) {
            1int
        } else {
            0int
        }
    }
}

/// Every queue position a listing fills comes from some descended entry.
proof fn lemma_enq_surjective(entries: Seq<(u16, Seq<char>)>, n: int, depth: int, t: int)
    requires
        0 <= n <= entries.len(),
        0 <= t < enq_count(entries, n, depth),
    ensures
        exists|l: int|
            0 <= l < n && spec_descends(#[trigger] entries[l], depth) && enq_count(
                entries,
                l,
                depth,
            ) == t,
    decreases n,
{
    if n > 0 {
        if spec_descends(entries[n - 1], depth) && enq_count(entries, n - 1, depth) == t {
            assert(0 <= n - 1 < n && spec_descends(entries[n - 1], depth) && enq_count(
                entries,
                n - 1,
                depth,
            ) == t);
        } else {
            lemma_enq_surjective(entries, n - 1, depth, t);
        }
    }
}

/// Counting directory entries never outruns the positions counted.
proof fn lemma_dir_count_bounds(entries: Seq<(u16, Seq<char>)>, j: int, depth: int)
    requires
        0 <= j,
    ensures
        0 <= dir_count(entries, j) <= j,
        0 <= enq_count(entries, j, depth) <= dir_count(entries, j),
    decreases j,
{
    if j > 0 {
        lemma_dir_count_bounds(entries, j - 1, depth);
    }
}

/// Both counts grow with the prefix, and strictly past a counted entry.
proof fn lemma_count_mono(entries: Seq<(u16, Seq<char>)>, j1: int, j2: int, depth: int)
    requires
        0 <= j1 <= j2,
    ensures
        dir_count(entries, j1) <= dir_count(entries, j2),
        enq_count(entries, j1, depth) <= enq_count(entries, j2, depth),
        j1 < j2 && spec_is_directory(entries[j1].1) ==> dir_count(entries, j1) < dir_count(
            entries,
            j2,
        ),
        j1 < j2 && spec_descends(entries[j1], depth) ==> enq_count(entries, j1, depth) < enq_count(
            entries,
            j2,
            depth,
        ),
    decreases j2,
{
    if j1 < j2 {
        lemma_count_mono(entries, j1, j2 - 1, depth);
    }
}

impl Crawler {
    /// How one listing changes the machine: the active frame leaves the
    /// queue; its directory gains one child per listing entry, in order —
    /// a fresh, empty directory node for each entry whose line starts
    /// with `d`, a file otherwise, each named by the line's parsed name —
    /// and each directory entry whose reply code is below 500 joins the
    /// queue at one less depth, while depth remains.
    pub open spec fn listing_applied(
        pre: Crawler,
        post: Crawler,
        entries: Seq<(u16, Seq<char>)>,
    ) -> bool {
        let f = pre.active_frame();
        let base = pre.arena@.len() as int;
        let rest = pre.queue@.remove(pre.active_at());
        &&& post.bfs == pre.bfs
        &&& post.depth == pre.depth
        &&& post.arena@.len() == base + dir_count(entries, entries.len() as int)
        &&& forall|i: int|
            0 <= i < base && i != f.dir ==> post.arena@[i] == pre.arena@[i]
        &&& post.arena@[f.dir as int].name == pre.arena@[f.dir as int].name
        &&& post.arena@[f.dir as int].children@.len() == entries.len()
        &&& forall|j: int|
            0 <= j < entries.len() && spec_is_directory(entries[j].1)
                ==> (#[trigger] post.arena@[f.dir as int].children@[j] matches
                ChildRef::Directory(k) && k as int == base + dir_count(entries, j))
        &&& forall|j: int|
            0 <= j < entries.len() && !spec_is_directory(entries[j].1)
                ==> (#[trigger] post.arena@[f.dir as int].children@[j] matches ChildRef::File(nm)
                && nm@ == spec_parse_filename(entries[j].1))
        &&& forall|j: int|
            0 <= j < entries.len() && spec_is_directory(#[trigger] entries[j].1) ==> {
                let k = base + dir_count(entries, j);
                &&& post.arena@[k].name@ == spec_parse_filename(entries[j].1)
                &&& post.arena@[k].children@.len() == 0
            }
        &&& post.queue@.len() == rest.len() + enq_count(
            entries,
            entries.len() as int,
            f.depth as int,
        )
        &&& forall|l: int| 0 <= l < rest.len() ==> post.queue@[l] == rest[l]
        &&& forall|j: int|
            0 <= j < entries.len() && spec_descends(#[trigger] entries[j], f.depth as int) ==> {
                let fr = post.queue@[rest.len() + enq_count(entries, j, f.depth as int)];
                &&& fr.dir == base + dir_count(entries, j)
                &&& fr.depth == f.depth - 1
                &&& view_strings(fr.path@) == view_strings(f.path@).push(
                    spec_parse_filename(entries[j].1),
                )
            }
    }

    /// Applies one listing to the active frame's directory.
    pub fn on_listing(&mut self, responses: &Responses)
        requires
            old(self).wf(),
            old(self).queue@.len() > 0,
        ensures
            final(self).wf(),
            Crawler::listing_applied(*old(self), *final(self), view_responses(responses@)),
    {
        let ghost pre = *old(self);
        let ghost entries = view_responses(responses@);
        let ghost base = self.arena@.len() as int;
        let frame = if self.bfs {
            self.queue.remove(0)
        } else {
            let at = self.queue.len() - 1;
            self.queue.remove(at)
        };
        proof {
            assert(frame == pre.active_frame());
            assert(self.queue@ =~= pre.queue@.remove(pre.active_at()));
        }
        let ghost rest = self.queue@;
        let ghost lev = pre.levels@[frame.dir as int];
        proof {
            let at = pre.active_at();
            assert forall|l: int| 0 <= l < rest.len() implies #[trigger] rest[l] == (if l < at {
                pre.queue@[l]
            } else {
                pre.queue@[l + 1]
            }) by {}
        }
        let mut children: Vec<ChildRef> = Vec::new();
        let m = responses.len();
        let mut j: usize = 0;
        while j < m
            invariant
                0 <= j <= m,
                m == entries.len(),
                entries == view_responses(responses@),
                pre.wf(),
                base == pre.arena@.len(),
                // facts about the popped frame
                frame.dir < base,
                pre.arena@[frame.dir as int].children@.len() == 0,
                frame.depth <= pre.depth,
                lev == pre.levels@[frame.dir as int],
                lev + frame.depth == pre.depth,
                0 <= lev <= pre.depth,
                // untouched configuration
                self.bfs == pre.bfs,
                self.depth == pre.depth,
                // the queue: the remaining frames, then one per descended entry
                rest == pre.queue@.remove(pre.active_at()),
                forall|l: int|
                    0 <= l < rest.len() ==> (#[trigger] rest[l]).dir != frame.dir && rest[l].dir
                        < base && pre.arena@[rest[l].dir as int].children@.len() == 0 && rest[l].depth
                        <= pre.depth && pre.levels@[rest[l].dir as int] + rest[l].depth == pre.depth,
                forall|l: int, g: int| 0 <= l < g < rest.len() ==> rest[l].dir != rest[g].dir,
                self.queue@.len() == rest.len() + enq_count(entries, j as int, frame.depth as int),
                forall|l: int| 0 <= l < rest.len() ==> #[trigger] self.queue@[l] == rest[l],
                forall|l: int|
                    0 <= l < j && spec_descends(#[trigger] entries[l], frame.depth as int) ==> {
                        let fr = self.queue@[rest.len() + enq_count(
                            entries,
                            l,
                            frame.depth as int,
                        )];
                        &&& fr.dir == base + dir_count(entries, l)
                        &&& fr.depth == frame.depth - 1
                        &&& view_strings(fr.path@) == view_strings(frame.path@).push(
                            spec_parse_filename(entries[l].1),
                        )
                    },
                // the arena: untouched up to base, one fresh node per directory entry
                self.arena@.len() == base + dir_count(entries, j as int),
                forall|i: int| 0 <= i < base ==> #[trigger] self.arena@[i] == pre.arena@[i],
                forall|k: int|
                    base <= k < self.arena@.len() ==> #[trigger] self.arena@[k].children@.len()
                        == 0,
                forall|l: int|
                    0 <= l < j && spec_is_directory(#[trigger] entries[l].1) ==> self.arena@[base
                        + dir_count(entries, l)].name@ == spec_parse_filename(entries[l].1),
                // levels follow the arena
                self.levels@.len() == self.arena@.len(),
                forall|i: int| 0 <= i < base ==> #[trigger] self.levels@[i] == pre.levels@[i],
                forall|k: int|
                    base <= k < self.arena@.len() ==> #[trigger] self.levels@[k] == lev + 1,
                // the children collected so far
                children@.len() == j,
                forall|l: int|
                    0 <= l < j && spec_is_directory(entries[l].1)
                        ==> (#[trigger] children@[l] matches ChildRef::Directory(k) && k as int
                        == base + dir_count(entries, l)),
                forall|l: int|
                    0 <= l < j && !spec_is_directory(entries[l].1)
                        ==> (#[trigger] children@[l] matches ChildRef::File(nm) && nm@
                        == spec_parse_filename(entries[l].1)),
            decreases m - j,
        {
            proof {
                assert(entries[j as int] == (responses@[j as int].0, responses@[j as int].1@));
                lemma_dir_count_bounds(entries, j as int, frame.depth as int);
            }
            let code = responses[j].0;
            let line_is_dir = is_directory(responses[j].1.as_str());
            let name = parse_filename(responses[j].1.as_str());
            if line_is_dir {
                let idx = self.arena.len();
                proof {
                    assert(idx == base + dir_count(entries, j as int));
                }
                children.push(ChildRef::Directory(idx));
                let node_name = name.clone();
                self.arena.push(DirNode { name: node_name, children: Vec::new() });
                self.levels = Ghost(self.levels@.push(lev + 1));
                if code < 500 && frame.depth > 0 {
                    let mut p = clone_path(&frame.path);
                    p.push(name);
                    proof {
                        assert(view_strings(p@) =~= view_strings(frame.path@).push(
                            spec_parse_filename(entries[j as int].1),
                        ));
                    }
                    self.queue.push(Frame { dir: idx, path: p, depth: frame.depth - 1 });
                }
            } else {
                children.push(ChildRef::File(name));
            }
            proof {
                assert(forall|l: int| 0 <= l < rest.len() ==> #[trigger] self.queue@[l] == rest[l]);
                assert(self.queue@.len() == rest.len() + enq_count(
                    entries,
                    j as int + 1,
                    frame.depth as int,
                ));
                assert(self.arena@.len() == base + dir_count(entries, j as int + 1));
                let jn = j as int + 1;
                let d = frame.depth as int;
                assert forall|l: int|
                    0 <= l < jn && spec_is_directory(#[trigger] entries[l].1) implies dir_count(
                    entries,
                    l,
                ) < dir_count(entries, jn) && (l < j as int ==> dir_count(entries, l) < dir_count(
                    entries,
                    j as int,
                )) by {
                    lemma_dir_count_bounds(entries, l, d);
                    lemma_count_mono(entries, l, jn, d);
                    if l < j as int {
                        lemma_count_mono(entries, l, j as int, d);
                    }
                }
                assert forall|l: int|
                    0 <= l < jn && spec_descends(#[trigger] entries[l], d) implies enq_count(
                    entries,
                    l,
                    d,
                ) < enq_count(entries, jn, d) && (l < j as int ==> enq_count(entries, l, d) < enq_count(
                    entries,
                    j as int,
                    d,
                )) by {
                    lemma_dir_count_bounds(entries, l, d);
                    lemma_count_mono(entries, l, jn, d);
                    if l < j as int {
                        lemma_count_mono(entries, l, j as int, d);
                    }
                }
            }
            proof {
                let jn = j as int + 1;
                let d = frame.depth as int;
                assert forall|l: int|
                    0 <= l < jn && spec_is_directory(#[trigger] entries[l].1) implies self.arena@[base
                    + dir_count(entries, l)].name@ == spec_parse_filename(entries[l].1) by {
                    lemma_dir_count_bounds(entries, l, d);
                    if l < j as int {
                        lemma_count_mono(entries, l, j as int, d);
                        assert(base + dir_count(entries, l) < base + dir_count(
                            entries,
                            j as int,
                        ));
                        assert(self.arena@[base + dir_count(entries, l)].name@
                            == spec_parse_filename(entries[l].1));
                    } else {
                        assert(l == j as int);
                        assert(self.arena@[base + dir_count(entries, l)].name@
                            == spec_parse_filename(entries[l].1));
                    }
                }
                assert forall|l: int|
                    0 <= l < jn && spec_descends(#[trigger] entries[l], d) implies {
                    let fr = self.queue@[rest.len() + enq_count(entries, l, d)];
                    &&& fr.dir == base + dir_count(entries, l)
                    &&& fr.depth == frame.depth - 1
                    &&& view_strings(fr.path@) == view_strings(frame.path@).push(
                        spec_parse_filename(entries[l].1),
                    )
                } by {
                    lemma_dir_count_bounds(entries, l, d);
                    if l < j as int {
                        lemma_count_mono(entries, l, j as int, d);
                        assert(rest.len() + enq_count(entries, l, d) < rest.len() + enq_count(
                            entries,
                            j as int,
                            d,
                        ));
                    } else {
                        assert(l == j as int);
                    }
                }
            }
            j = j + 1;
        }
        proof {
            lemma_dir_count_bounds(entries, entries.len() as int, frame.depth as int);
        }
        self.arena[frame.dir].children = children;
        proof {
            let post = *self;
            let n = entries.len() as int;
            let d = frame.depth as int;
            let fd = frame.dir as int;
            assert(post.arena@[fd].name == pre.arena@[fd].name);
            assert(post.arena@[fd].children@ == children@);
            assert(forall|i: int|
                0 <= i < post.arena@.len() && i != fd ==> #[trigger] post.arena@[i]
                    == self.arena@[i]);
            assert forall|l: int|
                0 <= l < n && spec_is_directory(#[trigger] entries[l].1) implies base + dir_count(
                entries,
                l,
            ) < post.arena@.len() && post.arena@[base + dir_count(entries, l)].children@.len()
                == 0 by {
                lemma_dir_count_bounds(entries, l, d);
                lemma_count_mono(entries, l, n, d);
            }
            // every queue position past the kept frames comes from a
            // descended entry
            assert forall|q: int| rest.len() <= q < post.queue@.len() implies {
                let fr = #[trigger] post.queue@[q];
                &&& base <= fr.dir < post.arena@.len()
                &&& post.arena@[fr.dir as int].children@.len() == 0
                &&& fr.depth <= post.depth
                &&& post.levels@[fr.dir as int] + fr.depth == post.depth
                &&& d > 0
            } by {
                lemma_enq_surjective(entries, n, d, q - rest.len());
                let l = choose|l: int|
                    0 <= l < n && spec_descends(#[trigger] entries[l], d) && enq_count(
                        entries,
                        l,
                        d,
                    ) == q - rest.len();
                lemma_count_mono(entries, l, n, d);
                lemma_dir_count_bounds(entries, l, d);
                assert(post.queue@[q].dir == base + dir_count(entries, l));
                assert(post.arena@[base + dir_count(entries, l)].children@.len() == 0);
            }
            assert forall|l: int|
                0 <= l < n && spec_is_directory(#[trigger] entries[l].1) implies post.arena@[base
                + dir_count(entries, l)].name@ == spec_parse_filename(entries[l].1) by {
                lemma_dir_count_bounds(entries, l, d);
                lemma_count_mono(entries, l, n, d);
            }
            // the arena is still a tree, with consistent levels
            assert forall|i: int, j2: int|
                0 <= i < post.arena@.len() && 0 <= j2 < post.arena@[i].children@.len() implies match #[trigger] post.arena@[i].children@[j2] {
                ChildRef::Directory(k) => i < k < post.arena@.len() && post.levels@[k as int]
                    == post.levels@[i] + 1,
                ChildRef::File(_) => true,
            } by {
                let c = post.arena@[i].children@[j2];
                if i < base && i != fd {
                    assert(post.arena@[i] == pre.arena@[i]);
                    assert(pre.arena@[i].children@[j2] == c);
                    match c {
                        ChildRef::Directory(k) => {
                            assert(i < k < base);
                            assert(post.levels@[k as int] == post.levels@[i] + 1);
                        },
                        ChildRef::File(_) => {},
                    }
                } else if i == fd {
                    assert(c == children@[j2]);
                    lemma_count_mono(entries, j2, n, d);
                    lemma_dir_count_bounds(entries, j2, d);
                    match c {
                        ChildRef::Directory(k) => {
                            assert(spec_is_directory(entries[j2].1));
                            assert(k as int == base + dir_count(entries, j2));
                            assert(i < k < post.arena@.len());
                            assert(post.levels@[k as int] == lev + 1);
                            assert(post.levels@[i] == lev);
                        },
                        ChildRef::File(_) => {},
                    }
                } else {
                    assert(post.arena@[i].children@.len() == 0);
                }
            }
            // the queue's kept frames still satisfy the frame invariant,
            // and no two frames name one directory
            assert forall|f2: int, g: int|
                0 <= f2 < g < post.queue@.len() implies post.queue@[f2].dir
                != post.queue@[g].dir by {
                if f2 >= rest.len() && g >= rest.len() {
                    lemma_enq_surjective(entries, n, d, f2 - rest.len());
                    lemma_enq_surjective(entries, n, d, g - rest.len());
                    let l1 = choose|l: int|
                        0 <= l < n && spec_descends(#[trigger] entries[l], d) && enq_count(
                            entries,
                            l,
                            d,
                        ) == f2 - rest.len();
                    let l2 = choose|l: int|
                        0 <= l < n && spec_descends(#[trigger] entries[l], d) && enq_count(
                            entries,
                            l,
                            d,
                        ) == g - rest.len();
                    assert(l1 != l2);
                    if l1 < l2 {
                        lemma_count_mono(entries, l1, l2, d);
                    } else {
                        lemma_count_mono(entries, l2, l1, d);
                    }
                } else if f2 < rest.len() && g >= rest.len() {
                    lemma_enq_surjective(entries, n, d, g - rest.len());
                    let l = choose|l: int|
                        0 <= l < n && spec_descends(#[trigger] entries[l], d) && enq_count(
                            entries,
                            l,
                            d,
                        ) == g - rest.len();
                    lemma_dir_count_bounds(entries, l, d);
                }
            }
            assert(post.wf());
        }
    }
}

/// An unchanged remote, as a pure oracle: the listing served for the
/// directory at each path.
pub type Oracle = spec_fn(Seq<Seq<char>>) -> Seq<(u16, Seq<char>)>;

/// The tree that crawling an unchanged remote yields below one
/// directory: one node per listing entry, in listing order; a directory
/// entry with a reply code below 500 is populated while depth remains,
/// and stands with no children otherwise.
pub open spec fn spec_crawl_children(oracle: Oracle, path: Seq<Seq<char>>, depth: int) -> Seq<
    NodeView,
>
    decreases depth,
{
    let entries = oracle(path);
    Seq::new(
        entries.len(),
        |j: int|
            {
                let code = entries[j].0;
                let line = entries[j].1;
                let name = spec_parse_filename(line);
                if spec_is_directory(line) {
                    NodeView::Directory {
                        name,
                        nodes: if code < 500 && depth > 0 {
                            spec_crawl_children(oracle, path.push(name), depth - 1)
                        } else {
                            Seq::empty()
                        },
                    }
                } else {
                    NodeView::File { name }
                }
            },
    )
}

/// The whole tree that crawling an unchanged remote yields: a root named
/// `.` over the crawl of the empty path.
pub open spec fn spec_crawl(oracle: Oracle, depth: int) -> NodeView {
    NodeView::Directory { name: "."@, nodes: spec_crawl_children(oracle, Seq::empty(), depth) }
}

/// The frame that still owes directory `i` its listing, where one is
/// queued.
pub open spec fn queued_at(queue: Seq<Frame>, i: int) -> Option<Frame>
    decreases queue.len(),
{
    if queue.len() == 0 {
        None
    } else if queue[0].dir == i {
        Some(queue[0])
    } else {
        queued_at(queue.drop_first(), i)
    }
}

/// Where no frame names `i`, none is found.
proof fn lemma_queued_at_none(queue: Seq<Frame>, i: int)
    requires
        forall|f: int| 0 <= f < queue.len() ==> (#[trigger] queue[f]).dir != i,
    ensures
        queued_at(queue, i) is None,
    decreases queue.len(),
{
    if queue.len() > 0 {
        assert(forall|f: int|
            0 <= f < queue.drop_first().len() ==> (#[trigger] queue.drop_first()[f]).dir != i);
        lemma_queued_at_none(queue.drop_first(), i);
    }
}

/// Where the frame at position `f` names `i` and no two frames share a
/// directory, that frame is found.
proof fn lemma_queued_at_found(queue: Seq<Frame>, i: int, f: int)
    requires
        0 <= f < queue.len(),
        queue[f].dir == i,
        forall|p: int, q: int| 0 <= p < q < queue.len() ==> queue[p].dir != queue[q].dir,
    ensures
        queued_at(queue, i) == Some(queue[f]),
    decreases queue.len(),
{
    if f > 0 {
        assert(queue[0].dir != i);
        assert(queue.drop_first()[f - 1] == queue[f]);
        assert(forall|p: int, q: int|
            0 <= p < q < queue.drop_first().len() ==> #[trigger] queue.drop_first()[p].dir
                != #[trigger] queue.drop_first()[q].dir);
        lemma_queued_at_found(queue.drop_first(), i, f - 1);
    }
}

/// The tree the crawl will have built below arena index `i` once every
/// owed listing has arrived: a directory still owed its listing gets the
/// crawl of its frame's path; a populated one keeps its children.
pub open spec fn spec_filled_tree(
    arena: Seq<DirNode>,
    queue: Seq<Frame>,
    oracle: Oracle,
    i: int,
) -> NodeView
    decreases arena.len() - i, 1nat,
{
    if 0 <= i < arena.len() {
        let name = arena[i].name@;
        match queued_at(queue, i) {
            Some(fr) => NodeView::Directory {
                name,
                nodes: spec_crawl_children(oracle, view_strings(fr.path@), fr.depth as int),
            },
            None => NodeView::Directory {
                name,
                nodes: Seq::new(
                    arena[i].children@.len(),
                    |j: int| spec_filled_child(arena, queue, oracle, arena[i].children@[j], i),
                ),
            },
        }
    } else {
        NodeView::File { name: Seq::empty() }
    }
}

/// The filled tree a child reference stands for.
pub open spec fn spec_filled_child(
    arena: Seq<DirNode>,
    queue: Seq<Frame>,
    oracle: Oracle,
    c: ChildRef,
    i: int,
) -> NodeView
    decreases arena.len() - i, 0nat,
{
    match c {
        ChildRef::File(name) => NodeView::File { name: name@ },
        ChildRef::Directory(k) => if i < k < arena.len() {
            spec_filled_tree(arena, queue, oracle, k as int)
        } else {
            NodeView::File { name: Seq::empty() }
        },
    }
}

impl Crawler {
    /// The machine is on course for the crawl of an unchanged remote:
    /// once every owed listing arrives from `oracle`, the tree will be
    /// exactly `spec_crawl(oracle, depth)`.
    pub open spec fn follows_remote(self, oracle: Oracle) -> bool {
        &&& self.wf()
        &&& spec_filled_tree(self.arena@, self.queue@, oracle, 0) == spec_crawl(
            oracle,
            self.depth as int,
        )
    }
}

/// A crawl at its start is on course for any remote: the root owes the
/// empty path's listing at full depth.  `new` establishes this, and so
/// does `on_reconnected`: after a restart nothing of an interrupted pass
/// remains, so a finished crawl never mixes two passes.
pub proof fn lemma_follows_start(c: Crawler, oracle: Oracle)
    requires
        c.wf(),
        c.is_start_state(),
    ensures
        c.follows_remote(oracle),
{
    assert(queued_at(c.queue@, 0) == Some(c.queue@[0]));
    assert(view_strings(c.queue@[0].path@) =~= Seq::<Seq<char>>::empty());
}

/// With nothing owed, the filled tree is the built tree: a finished
/// crawl on course has built exactly the depth-bounded crawl of the
/// remote.  The strategy never enters this statement: depth-first and
/// breadth-first crawls of one unchanged remote, and any two consecutive
/// crawls of it, build structurally identical trees.
pub proof fn lemma_follows_finished(c: Crawler, oracle: Oracle)
    requires
        c.follows_remote(oracle),
        c.queue@.len() == 0,
    ensures
        spec_tree_of(c.arena@, 0) == spec_crawl(oracle, c.depth as int),
{
    lemma_filled_no_queue(c.arena@, c.queue@, oracle, 0);
}

/// Without a queue, filling changes nothing.
proof fn lemma_filled_no_queue(arena: Seq<DirNode>, queue: Seq<Frame>, oracle: Oracle, i: int)
    requires
        queue.len() == 0,
        wf_arena(arena),
        0 <= i < arena.len(),
    ensures
        spec_filled_tree(arena, queue, oracle, i) == spec_tree_of(arena, i),
    decreases arena.len() - i,
{
    assert(queued_at(queue, i) is None);
    assert forall|j: int| 0 <= j < arena[i].children@.len() implies spec_filled_child(
        arena,
        queue,
        oracle,
        #[trigger] arena[i].children@[j],
        i,
    ) == spec_child_of(arena, arena[i].children@[j], i) by {
        match arena[i].children@[j] {
            ChildRef::Directory(k) => {
                lemma_filled_no_queue(arena, queue, oracle, k as int);
            },
            ChildRef::File(_) => {},
        }
    }
    assert(Seq::new(
        arena[i].children@.len(),
        |j: int| spec_filled_child(arena, queue, oracle, arena[i].children@[j], i),
    ) =~= Seq::new(
        arena[i].children@.len(),
        |j: int| spec_child_of(arena, arena[i].children@[j], i),
    ));
    assert(spec_filled_tree(arena, queue, oracle, i) is Directory);
    assert(spec_filled_tree(arena, queue, oracle, i)->Directory_name == arena[i].name@);
    assert(spec_filled_tree(arena, queue, oracle, i)->Directory_nodes == Seq::new(
        arena[i].children@.len(),
        |j: int| spec_filled_child(arena, queue, oracle, arena[i].children@[j], i),
    ));
    assert(spec_tree_of(arena, i) is Directory);
    assert(spec_tree_of(arena, i)->Directory_name == arena[i].name@);
    assert(spec_tree_of(arena, i)->Directory_nodes == Seq::new(
        arena[i].children@.len(),
        |j: int| spec_child_of(arena, arena[i].children@[j], i),
    ));
}

/// One listing keeps the machine on course, provided it is what the
/// remote serves for the path the machine asked about.
pub proof fn lemma_follows_listing(pre: Crawler, post: Crawler, oracle: Oracle)
    requires
        pre.follows_remote(oracle),
        pre.queue@.len() > 0,
        post.wf(),
        Crawler::listing_applied(pre, post, oracle(view_strings(pre.active_frame().path@))),
    ensures
        post.follows_remote(oracle),
{
    lemma_filled_step(pre, post, oracle, 0);
}

/// Applying one listing leaves every filled tree unchanged: what the
/// listing populated is exactly what its frame owed.
proof fn lemma_filled_step(pre: Crawler, post: Crawler, oracle: Oracle, i: int)
    requires
        pre.wf(),
        pre.queue@.len() > 0,
        post.wf(),
        Crawler::listing_applied(pre, post, oracle(view_strings(pre.active_frame().path@))),
        0 <= i < pre.arena@.len(),
    ensures
        spec_filled_tree(post.arena@, post.queue@, oracle, i) == spec_filled_tree(
            pre.arena@,
            pre.queue@,
            oracle,
            i,
        ),
    decreases pre.arena@.len() - i,
{
    let f = pre.active_frame();
    let at = pre.active_at();
    let base = pre.arena@.len() as int;
    let path = view_strings(f.path@);
    let entries = oracle(path);
    let n = entries.len() as int;
    let d = f.depth as int;
    let rest = pre.queue@.remove(at);
    assert forall|l: int| 0 <= l < rest.len() implies #[trigger] rest[l] == (if l < at {
        pre.queue@[l]
    } else {
        pre.queue@[l + 1]
    }) by {}
    lemma_dir_count_bounds(entries, n, d);
    if i == f.dir {
        lemma_queued_at_found(pre.queue@, i, at);
        assert forall|q: int|
            0 <= q < post.queue@.len() implies (#[trigger] post.queue@[q]).dir != i by {
            if q < rest.len() {
                assert(post.queue@[q] == rest[q]);
            } else {
                lemma_enq_surjective(entries, n, d, q - rest.len());
                let l = choose|l: int|
                    0 <= l < n && spec_descends(#[trigger] entries[l], d) && enq_count(
                        entries,
                        l,
                        d,
                    ) == q - rest.len();
                lemma_dir_count_bounds(entries, l, d);
            }
        }
        lemma_queued_at_none(post.queue@, i);
        let prenodes = spec_crawl_children(oracle, path, d);
        let postnodes = Seq::new(
            post.arena@[i].children@.len(),
            |j: int| spec_filled_child(post.arena@, post.queue@, oracle, post.arena@[i].children@[j], i),
        );
        assert(post.arena@[i].children@.len() == n);
        assert forall|j: int| 0 <= j < n implies postnodes[j] == prenodes[j] by {
            let code = entries[j].0;
            let line = entries[j].1;
            let name = spec_parse_filename(line);
            lemma_dir_count_bounds(entries, j, d);
            lemma_count_mono(entries, j, n, d);
            if spec_is_directory(line) {
                let k = base + dir_count(entries, j);
                assert(post.arena@[i].children@[j] matches ChildRef::Directory(kk) && kk as int
                    == k);
                assert(i < k < post.arena@.len());
                assert(post.arena@[k].name@ == name);
                if code < 500 && d > 0 {
                    let qpos = rest.len() + enq_count(entries, j, d);
                    assert(spec_descends(entries[j], d));
                    assert(post.queue@[qpos].dir == k);
                    assert(post.queue@[qpos].depth == f.depth - 1);
                    assert(view_strings(post.queue@[qpos].path@) == path.push(name));
                    lemma_queued_at_found(post.queue@, k, qpos);
                    assert(queued_at(post.queue@, k) == Some(post.queue@[qpos]));
                    assert(spec_filled_tree(post.arena@, post.queue@, oracle, k) is Directory);
                    assert(spec_filled_tree(post.arena@, post.queue@, oracle, k)->Directory_name
                        == name);
                    assert(spec_filled_tree(post.arena@, post.queue@, oracle, k)->Directory_nodes
                        == spec_crawl_children(oracle, path.push(name), d - 1));
                    assert(postnodes[j] == spec_filled_child(
                        post.arena@,
                        post.queue@,
                        oracle,
                        post.arena@[i].children@[j],
                        i,
                    ));
                    assert(postnodes[j] == spec_filled_tree(post.arena@, post.queue@, oracle, k));
                } else {
                    assert forall|q: int|
                        0 <= q < post.queue@.len() implies (#[trigger] post.queue@[q]).dir
                        != k by {
                        if q < rest.len() {
                            assert(post.queue@[q] == rest[q]);
                            assert(rest[q].dir < base);
                        } else {
                            lemma_enq_surjective(entries, n, d, q - rest.len());
                            let l = choose|l: int|
                                0 <= l < n && spec_descends(#[trigger] entries[l], d)
                                    && enq_count(entries, l, d) == q - rest.len();
                            assert(l != j);
                            if l < j {
                                lemma_count_mono(entries, l, j, d);
                            } else {
                                lemma_count_mono(entries, j, l, d);
                            }
                        }
                    }
                    lemma_queued_at_none(post.queue@, k);
                    assert(post.arena@[k].children@.len() == 0);
                    assert(Seq::new(
                        post.arena@[k].children@.len(),
                        |jj: int| spec_filled_child(
                            post.arena@,
                            post.queue@,
                            oracle,
                            post.arena@[k].children@[jj],
                            k,
                        ),
                    ) =~= Seq::<NodeView>::empty());
                    assert(spec_filled_tree(post.arena@, post.queue@, oracle, k) is Directory);
                    assert(spec_filled_tree(post.arena@, post.queue@, oracle, k)->Directory_name
                        == name);
                    assert(spec_filled_tree(post.arena@, post.queue@, oracle, k)->Directory_nodes
                        =~= Seq::<NodeView>::empty());
                    assert(postnodes[j] == spec_filled_tree(post.arena@, post.queue@, oracle, k));
                }
            } else {
                assert(post.arena@[i].children@[j] matches ChildRef::File(nm) && nm@ == name);
            }
        }
        assert(postnodes =~= prenodes);
        assert(post.arena@[i].name == pre.arena@[i].name);
        assert(spec_filled_tree(pre.arena@, pre.queue@, oracle, i) is Directory);
        assert(spec_filled_tree(pre.arena@, pre.queue@, oracle, i)->Directory_name
            == pre.arena@[i].name@);
        assert(spec_filled_tree(pre.arena@, pre.queue@, oracle, i)->Directory_nodes == prenodes);
        assert(spec_filled_tree(post.arena@, post.queue@, oracle, i) is Directory);
        assert(spec_filled_tree(post.arena@, post.queue@, oracle, i)->Directory_name
            == post.arena@[i].name@);
        assert(spec_filled_tree(post.arena@, post.queue@, oracle, i)->Directory_nodes == postnodes);
    } else {
        assert(post.arena@[i] == pre.arena@[i]);
        if exists|p: int| 0 <= p < pre.queue@.len() && (#[trigger] pre.queue@[p]).dir == i {
            let p = choose|p: int| 0 <= p < pre.queue@.len() && (#[trigger] pre.queue@[p]).dir
                == i;
            assert(p != at);
            lemma_queued_at_found(pre.queue@, i, p);
            let pp = if p < at {
                p
            } else {
                p - 1
            };
            assert(rest[pp] == pre.queue@[p]);
            assert(post.queue@[pp] == rest[pp]);
            lemma_queued_at_found(post.queue@, i, pp);
            assert(queued_at(pre.queue@, i) == queued_at(post.queue@, i));
        } else {
            assert forall|q: int|
                0 <= q < pre.queue@.len() implies (#[trigger] pre.queue@[q]).dir != i by {}
            lemma_queued_at_none(pre.queue@, i);
            assert forall|q: int|
                0 <= q < post.queue@.len() implies (#[trigger] post.queue@[q]).dir != i by {
                if q < rest.len() {
                    assert(post.queue@[q] == rest[q]);
                } else {
                    lemma_enq_surjective(entries, n, d, q - rest.len());
                    let l = choose|l: int|
                        0 <= l < n && spec_descends(#[trigger] entries[l], d) && enq_count(
                            entries,
                            l,
                            d,
                        ) == q - rest.len();
                    lemma_dir_count_bounds(entries, l, d);
                }
            }
            lemma_queued_at_none(post.queue@, i);
            assert forall|j: int| 0 <= j < pre.arena@[i].children@.len() implies spec_filled_child(
                post.arena@,
                post.queue@,
                oracle,
                #[trigger] pre.arena@[i].children@[j],
                i,
            ) == spec_filled_child(pre.arena@, pre.queue@, oracle, pre.arena@[i].children@[j], i) by {
                match pre.arena@[i].children@[j] {
                    ChildRef::Directory(k) => {
                        lemma_filled_step(pre, post, oracle, k as int);
                    },
                    ChildRef::File(_) => {},
                }
            }
            assert(Seq::new(
                post.arena@[i].children@.len(),
                |j: int| spec_filled_child(
                    post.arena@,
                    post.queue@,
                    oracle,
                    post.arena@[i].children@[j],
                    i,
                ),
            ) =~= Seq::new(
                pre.arena@[i].children@.len(),
                |j: int| spec_filled_child(
                    pre.arena@,
                    pre.queue@,
                    oracle,
                    pre.arena@[i].children@[j],
                    i,
                ),
            ));
            assert(spec_filled_tree(post.arena@, post.queue@, oracle, i) is Directory);
            assert(spec_filled_tree(post.arena@, post.queue@, oracle, i)->Directory_name
                == post.arena@[i].name@);
            assert(spec_filled_tree(post.arena@, post.queue@, oracle, i)->Directory_nodes
                == Seq::new(
                post.arena@[i].children@.len(),
                |j: int| spec_filled_child(
                    post.arena@,
                    post.queue@,
                    oracle,
                    post.arena@[i].children@[j],
                    i,
                ),
            ));
            assert(spec_filled_tree(pre.arena@, pre.queue@, oracle, i) is Directory);
            assert(spec_filled_tree(pre.arena@, pre.queue@, oracle, i)->Directory_name
                == pre.arena@[i].name@);
            assert(spec_filled_tree(pre.arena@, pre.queue@, oracle, i)->Directory_nodes
                == Seq::new(
                pre.arena@[i].children@.len(),
                |j: int| spec_filled_child(
                    pre.arena@,
                    pre.queue@,
                    oracle,
                    pre.arena@[i].children@[j],
                    i,
                ),
            ));
        }
    }
}

/// Copies a path.
fn clone_path(p: &Vec<String>) -> (r: Vec<String>)
    ensures
        view_strings(r@) == view_strings(p@),
        r@.len() == p@.len(),
{
    let mut r: Vec<String> = Vec::new();
    let mut i: usize = 0;
    while i < p.len()
        invariant
            0 <= i <= p@.len(),
            r@.len() == i,
            forall|j: int| 0 <= j < i ==> #[trigger] r@[j]@ == p@[j]@,
        decreases p@.len() - i,
    {
        r.push(p[i].clone());
        i = i + 1;
    }
    proof {
        assert(view_strings(r@) =~= view_strings(p@));
    }
    r
}

/// Builds the `Directory` value of the tree rooted at arena index `i`.
fn build_tree(arena: &Vec<DirNode>, i: usize) -> (d: Directory)
    requires
        wf_arena(arena@),
        i < arena@.len(),
    ensures
        (NodeView::Directory { name: d@.name, nodes: d@.nodes }) == spec_tree_of(
            arena@,
            i as int,
        ),
    decreases arena@.len() - i,
{
    let mut dir = Directory::new(arena[i].name.clone());
    let m = arena[i].children.len();
    let mut j: usize = 0;
    while j < m
        invariant
            wf_arena(arena@),
            i < arena@.len(),
            m == arena@[i as int].children@.len(),
            0 <= j <= m,
            dir@.name == arena@[i as int].name@,
            dir@.nodes == Seq::new(
                j as nat,
                |l: int| spec_child_of(arena@, arena@[i as int].children@[l], i as int),
            ),
        decreases m - j,
    {
        let ghost nodes0 = dir@.nodes;
        match &arena[i].children[j] {
            ChildRef::File(name) => {
                dir.add(crate::fs::file::File::new(name.clone()));
            },
            ChildRef::Directory(k) => {
                let sub = build_tree(arena, *k);
                dir.add(sub);
            },
        }
        proof {
            assert(dir@.nodes =~= Seq::new(
                (j + 1) as nat,
                |l: int| spec_child_of(arena@, arena@[i as int].children@[l], i as int),
            ));
        }
        j = j + 1;
    }
    proof {
        assert(dir@.nodes =~= spec_tree_of(arena@, i as int)->Directory_nodes);
    }
    dir
}

/// Below a directory at level `l`, the tree reaches at most
/// `depth + 2 - l` nodes of height: levels never pass `depth + 1`, and a
/// directory there is empty.
proof fn lemma_tree_height(arena: Seq<DirNode>, levels: Seq<int>, depth: int, i: int)
    requires
        wf_arena(arena),
        levels.len() == arena.len(),
        0 <= i < arena.len(),
        forall|a: int, j: int|
            0 <= a < arena.len() && 0 <= j < arena[a].children@.len() ==> match #[trigger] arena[a].children@[j] {
                ChildRef::Directory(k) => levels[k as int] == levels[a] + 1,
                ChildRef::File(_) => true,
            },
        forall|a: int| 0 <= a < arena.len() ==> 0 <= #[trigger] levels[a] <= depth + 1,
        forall|a: int|
            0 <= a < arena.len() && levels[a] == depth + 1 ==> arena[a].children@.len() == 0,
    ensures
        crate::fs::node::spec_height(spec_tree_of(arena, i)) <= depth + 2 - levels[i],
    decreases arena.len() - i,
{
    let t = spec_tree_of(arena, i);
    let cs = arena[i].children@;
    assert forall|j: int| 0 <= j < t->Directory_nodes.len() implies crate::fs::node::spec_height(
        #[trigger] t->Directory_nodes[j],
    ) <= (depth + 1 - levels[i]) as nat by {
        let c = cs[j];
        assert(t->Directory_nodes[j] == spec_child_of(arena, c, i));
        match c {
            ChildRef::Directory(k) => {
                lemma_tree_height(arena, levels, depth, k as int);
            },
            ChildRef::File(_) => {
                assert(levels[i] <= depth);
            },
        }
    }
    crate::fs::node::lemma_forest_height_bound(
        t->Directory_nodes,
        (depth + 1 - levels[i]) as nat,
    );
}

} // verus!
