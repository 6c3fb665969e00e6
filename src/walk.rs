//! The traversal as a state machine over an explicit worklist.
//!
//! The caller performs the file-system work that each step names (read a
//! file, list a directory) and hands the result back; the walker decides what
//! comes next and folds finished directories into their parents. Depth of the
//! tree costs worklist entries, not stack frames.
use vstd::prelude::*;
use crate::node::Node;
use crate::order::NodeView;
use crate::tree::{compute_dir_hash, dir_digest, file_digest, hash_file, views};

verus! {

/// What the file system says an entry is.
#[derive(Clone, Copy, Debug, PartialEq, Eq, Structural)]
pub enum EntryKind {
    File,
    Directory,
    /// Neither a regular file nor a directory (a device, a socket, a dangling link).
    Other,
}

/// A child found by listing a directory.
#[derive(Debug)]
pub struct Entry {
    pub path: String,
    pub kind: EntryKind,
}

/// The model of an entry: its path and its kind.
pub type EntryView = (Seq<char>, EntryKind);

impl View for Entry {
    type V = EntryView;

    open spec fn view(&self) -> EntryView {
        (self.path@, self.kind)
    }
}

impl Entry {
    /// Pairs a path with its kind.
    pub fn new(path: String, kind: EntryKind) -> (r: Entry)
        ensures
            r@ == (path@, kind),
    {
        Entry { path, kind }
    }
}

/// What the walker asks for next.
#[derive(Debug)]
pub enum Step {
    /// Read this file whole and pass its bytes to `file_read`.
    ReadFile(String),
    /// List this directory one level deep and pass its children to
    /// `directory_listed`.
    ListDirectory(String),
    /// This entry is neither a file nor a directory: the walk fails.
    Unsupported(String),
    /// The walk is over; this is the root's node.
    Finished(Node),
}

/// The model of a step.
pub enum StepView {
    ReadFile(Seq<char>),
    ListDirectory(Seq<char>),
    Unsupported(Seq<char>),
    Finished(NodeView),
}

impl View for Step {
    type V = StepView;

    open spec fn view(&self) -> StepView {
        match self {
            Step::ReadFile(p) => StepView::ReadFile(p@),
            Step::ListDirectory(p) => StepView::ListDirectory(p@),
            Step::Unsupported(p) => StepView::Unsupported(p@),
            Step::Finished(n) => StepView::Finished(n@),
        }
    }
}

/// The step that an entry calls for: files are read, directories listed, and
/// anything else refused.
pub open spec fn visit_step(e: EntryView) -> StepView {
    match e.1 {
        EntryKind::File => StepView::ReadFile(e.0),
        EntryKind::Directory => StepView::ListDirectory(e.0),
        EntryKind::Other => StepView::Unsupported(e.0),
    }
}

/// A directory being hashed: its path, the children still to visit and the
/// nodes of those already hashed.
pub type FrameView = (Seq<char>, Seq<EntryView>, Seq<NodeView>);

/// The models of a sequence of entries.
pub open spec fn entries_view(s: Seq<Entry>) -> Seq<EntryView> {
    s.map_values(|e: Entry| e@)
}

/// Hands a finished node to the innermost open directory. If that directory
/// has children left, the next one is visited; otherwise it is finished in
/// turn and its own node goes up a level. With no directory open, the node
/// is the root's.
pub open spec fn settle(frames: Seq<FrameView>, node: NodeView) -> (Seq<FrameView>, StepView)
    decreases frames.len(),
{
    if frames.len() == 0 {
        (frames, StepView::Finished(node))
    } else {
        let top = frames.last();
        let done = top.2.push(node);
        if top.1.len() > 0 {
            (frames.drop_last().push((top.0, top.1.drop_last(), done)), visit_step(top.1.last()))
        } else {
            settle(frames.drop_last(), (top.0, dir_digest(top.0, done)))
        }
    }
}

/// Opens a directory just listed: with children, it waits on them and the
/// last listed is visited first; without, it is finished at once.
pub open spec fn open_directory(frames: Seq<FrameView>, path: Seq<char>, kids: Seq<EntryView>) -> (
    Seq<FrameView>,
    StepView,
) {
    if kids.len() == 0 {
        settle(frames, (path, dir_digest(path, Seq::empty())))
    } else {
        (frames.push((path, kids.drop_last(), Seq::empty())), visit_step(kids.last()))
    }
}

struct Frame {
    path: String,
    pending: Vec<Entry>,
    done: Vec<Node>,
}

impl View for Frame {
    type V = FrameView;

    closed spec fn view(&self) -> FrameView {
        (self.path@, entries_view(self.pending@), views(self.done@))
    }
}

/// The open directories of a walk, outermost first.
pub struct Walker {
    frames: Vec<Frame>,
}

impl View for Walker {
    type V = Seq<FrameView>;

    closed spec fn view(&self) -> Seq<FrameView> {
        self.frames@.map_values(|f: Frame| f@)
    }
}

impl Walker {
    /// A walker with no directory open.
    pub fn new() -> (r: Walker)
        ensures
            r@ == Seq::<FrameView>::empty(),
    {
        let r = Walker { frames: Vec::new() };
        proof {
            assert(r@ =~= Seq::<FrameView>::empty());
        }
        r
    }

    /// The step that `entry` calls for; the walk starts with the root's.
    pub fn visit(&self, entry: Entry) -> (r: Step)
        ensures
            r@ == visit_step(entry@),
    {
        match entry.kind {
            EntryKind::File => Step::ReadFile(entry.path),
            EntryKind::Directory => Step::ListDirectory(entry.path),
            EntryKind::Other => Step::Unsupported(entry.path),
        }
    }

    /// Takes the content of the file that the last step asked to read.
    pub fn file_read(&mut self, path: String, content: &[u8]) -> (r: Step)
        ensures
            (final(self)@, r@) == settle(old(self)@, (path@, file_digest(path@, content@))),
    {
        let node = hash_file(path, content);
        self.deliver(node)
    }

    /// Takes the children of the directory that the last step asked to list,
    /// in the order the listing gave them.
    pub fn directory_listed(&mut self, path: String, children: Vec<Entry>) -> (r: Step)
        ensures
            (final(self)@, r@) == open_directory(old(self)@, path@, entries_view(children@)),
    {
        let mut pending = children;
        let ghost kids = entries_view(pending@);
        match pending.pop() {
            None => {
                let node = compute_dir_hash(path, Vec::new());
                proof {
                    assert(views(Seq::<Node>::empty()) =~= Seq::<NodeView>::empty());
                }
                self.deliver(node)
            },
            Some(next) => {
                let ghost before = self@;
                let frame = Frame { path, pending, done: Vec::new() };
                proof {
                    assert(entries_view(frame.pending@) =~= kids.drop_last());
                    assert(views(frame.done@) =~= Seq::<NodeView>::empty());
                }
                self.frames.push(frame);
                proof {
                    assert(self@ =~= before.push(frame@));
                }
                self.visit(next)
            },
        }
    }

    fn deliver(&mut self, finished: Node) -> (r: Step)
        ensures
            (final(self)@, r@) == settle(old(self)@, finished@),
    {
        let ghost goal = settle(self@, finished@);
        let mut node = finished;
        loop
            invariant
                goal == settle(old(self)@, finished@),
                settle(self@, node@) == goal,
            decreases self@.len(),
        {
            let ghost before = self@;
            match self.frames.pop() {
                None => {
                    proof {
                        assert(before.len() == 0);
                        assert(self@ =~= before);
                    }
                    return Step::Finished(node);
                },
                Some(top) => {
                    proof {
                        assert(self@ =~= before.drop_last());
                    }
                    let mut top = top;
                    let ghost node_view = node@;
                    let ghost top_view = top@;
                    let ghost old_pending = top.pending@;
                    proof {
                        assert(top_view == before.last());
                    }
                    top.done.push(node);
                    proof {
                        assert(views(top.done@) =~= top_view.2.push(node_view));
                    }
                    match top.pending.pop() {
                        Some(next) => {
                            let ghost rest = self@;
                            proof {
                                assert(entries_view(top.pending@) =~= top_view.1.drop_last());
                                assert(top_view.1.len() > 0);
                                assert(top_view.1.last() == next@);
                                assert(top@ == (top_view.0, top_view.1.drop_last(), top_view.2.push(node_view)));
                            }
                            self.frames.push(top);
                            proof {
                                assert(self@ =~= rest.push(top@));
                            }
                            return self.visit(next);
                        },
                        None => {
                            proof {
                                assert(entries_view(top.pending@).len() == 0);
                            }
                            node = compute_dir_hash(top.path, top.done);
                        },
                    }
                },
            }
        }
    }
}

} // verus!
