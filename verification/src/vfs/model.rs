//! What the tree operations compute, stated on the tree as a value.

use super::node::{DirView, FileView, NodeView};
use crate::text::{pieces, terminated_pieces, trimmed};
use vstd::prelude::*;

verus! {

impl NodeView {
    /// The name of the node, file or directory.
    pub open spec fn name(self) -> Seq<char> {
        match self {
            NodeView::File(f) => f.name,
            NodeView::Dir(d) => d.name,
        }
    }

    /// When the node was created.
    pub open spec fn creation_time(self) -> u64 {
        match self {
            NodeView::File(f) => f.creation_time,
            NodeView::Dir(d) => d.creation_time,
        }
    }
}

/// The node has this name.
pub open spec fn named(name: Seq<char>) -> spec_fn(NodeView) -> bool {
    |n: NodeView| n.name() == name
}

/// The node is a file of this name.
pub open spec fn file_named(name: Seq<char>) -> spec_fn(NodeView) -> bool {
    |n: NodeView| n is File && n.name() == name
}

/// The node is a directory of this name.
pub open spec fn dir_named(name: Seq<char>) -> spec_fn(NodeView) -> bool {
    |n: NodeView| n is Dir && n.name() == name
}

/// The position of the first node of `s` that satisfies `p`, or the
/// length of `s` if none does.
pub open spec fn first_where(s: Seq<NodeView>, p: spec_fn(NodeView) -> bool) -> int
    decreases s.len(),
{
    if s.len() == 0 || p(s[0]) {
        0
    } else {
        1 + first_where(s.skip(1), p)
    }
}

pub proof fn lemma_first_where(s: Seq<NodeView>, p: spec_fn(NodeView) -> bool, i: int)
    requires
        0 <= i <= s.len(),
        forall|j: int| 0 <= j < i ==> !p(#[trigger] s[j]),
        i < s.len() ==> p(s[i]),
    ensures
        first_where(s, p) == i,
    decreases i,
{
    if i > 0 {
        let t = s.skip(1);
        assert forall|j: int| 0 <= j < i - 1 implies !p(#[trigger] t[j]) by {
            assert(t[j] == s[j + 1]);
        }
        lemma_first_where(t, p, i - 1);
    }
}

/// An empty directory.
pub open spec fn empty_dir(name: Seq<char>, now: u64) -> DirView {
    DirView { name: name, creation_time: now, children: Seq::empty() }
}

impl DirView {
    /// The directory with other children.
    pub open spec fn with_children(self, children: Seq<NodeView>) -> DirView {
        DirView { name: self.name, creation_time: self.creation_time, children: children }
    }

    /// The directory after a directory has been made at `path`, a list of
    /// names leading down from this directory.
    ///
    /// The last name is added as an empty directory, created at `now`,
    /// unless a node of that name is there already. Each name before it
    /// is looked up among the children; the way ends without effect
    /// where the first node of that name is missing or is a file.
    pub open spec fn with_dir(self, path: Seq<Seq<char>>, now: u64) -> DirView
        decreases path.len(),
    {
        if path.len() == 0 {
            self
        } else {
            let i = first_where(self.children, named(path[0]));
            if path.len() == 1 {
                if i >= self.children.len() {
                    self.with_children(self.children.push(NodeView::Dir(empty_dir(path[0], now))))
                } else {
                    self
                }
            } else if i < self.children.len() {
                match self.children[i] {
                    NodeView::Dir(sub) => self.with_children(
                        self.children.update(i, NodeView::Dir(sub.with_dir(path.skip(1), now))),
                    ),
                    NodeView::File(_) => self,
                }
            } else {
                self
            }
        }
    }

    /// The directory after the node at `path` has been removed.
    ///
    /// The first node with the last name is removed, unless it is a
    /// directory that still has children. Each name before it is looked
    /// up as in [`DirView::with_dir`].
    pub open spec fn without_dir(self, path: Seq<Seq<char>>) -> DirView
        decreases path.len(),
    {
        if path.len() == 0 {
            self
        } else {
            let i = first_where(self.children, named(path[0]));
            if i >= self.children.len() {
                self
            } else if path.len() == 1 {
                match self.children[i] {
                    NodeView::Dir(sub) => if sub.children.len() != 0 {
                        self
                    } else {
                        self.with_children(self.children.remove(i))
                    },
                    NodeView::File(_) => self.with_children(self.children.remove(i)),
                }
            } else {
                match self.children[i] {
                    NodeView::Dir(sub) => self.with_children(
                        self.children.update(i, NodeView::Dir(sub.without_dir(path.skip(1)))),
                    ),
                    NodeView::File(_) => self,
                }
            }
        }
    }

    /// The directory after `file` has been added in the directory at
    /// `path`, and whether it was added. The path begins with the name
    /// of this directory itself and leads down through directories.
    ///
    /// Nothing is added where the path is empty, begins with another
    /// name, or names a directory that is not there. The result is `None`
    /// where the directory at `path` already holds a file of that name:
    /// there the operation is not defined.
    pub open spec fn with_file(self, path: Seq<Seq<char>>, file: FileView) -> Option<(DirView,
        bool)>
        decreases path.len(),
    {
        if path.len() == 0 || self.name != path[0] {
            Some((self, false))
        } else if path.len() == 1 {
            if first_where(self.children, file_named(file.name)) >= self.children.len() {
                Some((self.with_children(self.children.push(NodeView::File(file))), true))
            } else {
                None
            }
        } else {
            let i = first_where(self.children, dir_named(path[1]));
            if i < self.children.len() {
                match self.children[i] {
                    NodeView::Dir(sub) => match sub.with_file(path.skip(1), file) {
                        Some((changed, added)) => Some(
                            (self.with_children(self.children.update(i, NodeView::Dir(changed))),
                                added),
                        ),
                        None => None,
                    },
                    NodeView::File(_) => Some((self, false)),
                }
            } else {
                Some((self, false))
            }
        }
    }
}

/// The file reached from directory `d` by the names `names`: all but the
/// last name directories, each the first node of its name, and the last
/// the first node of its name and a file.
pub open spec fn descend(d: DirView, names: Seq<Seq<char>>) -> Option<NodeView>
    decreases names.len(),
{
    if names.len() == 0 {
        None
    } else {
        let j = first_where(d.children, named(names[0]));
        if j >= d.children.len() {
            None
        } else if names.len() == 1 {
            match d.children[j] {
                NodeView::File(_) => Some(d.children[j]),
                NodeView::Dir(_) => None,
            }
        } else {
            match d.children[j] {
                NodeView::Dir(sub) => descend(sub, names.skip(1)),
                NodeView::File(_) => None,
            }
        }
    }
}

impl DirView {
    /// The tree after `mk_dir` with this path: the path is cut at each
    /// `/`, must begin with the name of the root, and the rest leads
    /// down from the root.
    pub open spec fn made(self, path: Seq<char>, now: u64) -> DirView {
        let p = pieces(path, '/');
        if p[0] == self.name {
            self.with_dir(p.skip(1), now)
        } else {
            self
        }
    }

    /// The tree after `rm_dir` with this path.
    pub open spec fn removed(self, path: Seq<char>) -> DirView {
        let p = pieces(path, '/');
        if p[0] == self.name {
            self.without_dir(p.skip(1))
        } else {
            self
        }
    }

    /// The tree after `new_file` with this path, and whether the file
    /// was added; `None` where the operation is not defined. The path is
    /// trimmed and cut at each `/`, a `/` at its end counting for
    /// nothing.
    pub open spec fn placed(self, path: Seq<char>, file: FileView) -> Option<(DirView, bool)> {
        self.with_file(terminated_pieces(trimmed(path), '/'), file)
    }

    /// The file at this path, walked from the root: the path must begin
    /// with `/`, the names before the last must be directories, and the
    /// last a file.
    pub open spec fn located_from_root(self, path: Seq<char>) -> Option<NodeView> {
        let p = pieces(path, '/');
        if p[0].len() != 0 {
            None
        } else {
            descend(self, p.skip(1))
        }
    }

    /// Whether `get_file` is defined on this path. A path that begins
    /// with `/` must name something, and if it holds one name only,
    /// that must not be the name of a directory of the root.
    pub open spec fn can_locate(self, path: Seq<char>) -> bool {
        let p = pieces(path, '/');
        p[0].len() == 0 ==> p.len() >= 2 && (p.len() == 2 ==> first_where(
            self.children,
            dir_named(p[1]),
        ) >= self.children.len())
    }

    /// The file at this path: the path must begin with `/`, its first
    /// name must be that of a directory of the root, and the names after
    /// it lead from there to the file.
    pub open spec fn located(self, path: Seq<char>) -> Option<NodeView> {
        let p = pieces(path, '/');
        if p[0].len() != 0 || p.len() < 3 {
            None
        } else {
            let i = first_where(self.children, dir_named(p[1]));
            if i < self.children.len() {
                match self.children[i] {
                    NodeView::Dir(sub) => descend(sub, p.skip(2)),
                    NodeView::File(_) => None,
                }
            } else {
                None
            }
        }
    }
}

} // verus!
