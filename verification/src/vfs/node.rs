//! The nodes of the tree and what they are as mathematical values.

use vstd::prelude::*;

verus! {

/// How the content of a file is to be read.
#[derive(Debug, Clone, Copy, PartialEq, Eq, Structural)]
pub enum FileType {
    Text,
    Binary,
}

/// A file: a name, its bytes, when it was created (seconds since the
/// epoch) and its type.
#[derive(Debug, PartialEq, Eq)]
pub struct File {
    pub name: String,
    pub content: Vec<u8>,
    pub creation_time: u64,
    pub type_: FileType,
}

/// A directory: a name, when it was created, and its children in the
/// order in which they were added.
#[derive(Debug, PartialEq, Eq)]
pub struct Dir {
    pub name: String,
    pub creation_time: u64,
    pub children: Vec<Node>,
}

/// A node of the tree.
#[derive(Debug, PartialEq, Eq)]
pub enum Node {
    File(File),
    Dir(Dir),
}

/// A file as a value.
pub struct FileView {
    pub name: Seq<char>,
    pub content: Seq<u8>,
    pub creation_time: u64,
    pub type_: FileType,
}

/// A directory as a value.
pub struct DirView {
    pub name: Seq<char>,
    pub creation_time: u64,
    pub children: Seq<NodeView>,
}

/// A node as a value.
pub enum NodeView {
    File(FileView),
    Dir(DirView),
}

impl View for File {
    type V = FileView;

    open spec fn view(&self) -> FileView {
        FileView {
            name: self.name@,
            content: self.content@,
            creation_time: self.creation_time,
            type_: self.type_,
        }
    }
}

impl Default for FileType {
    fn default() -> (r: Self)
        ensures
            r == FileType::Binary,
    {
        FileType::Binary
    }
}

impl Clone for File {
    fn clone(&self) -> (r: Self)
        ensures
            r@ == self@,
    {
        File {
            name: self.name.clone(),
            content: self.content.clone(),
            creation_time: self.creation_time,
            type_: self.type_,
        }
    }
}

impl Default for File {
    fn default() -> (r: Self)
        ensures
            r@ == (FileView {
                name: Seq::empty(),
                content: Seq::empty(),
                creation_time: 0,
                type_: FileType::Binary,
            }),
    {
        File { name: String::new(), content: Vec::new(), creation_time: 0, type_: FileType::Binary }
    }
}

/// The directory as a value: its name, its time, and its children as
/// values, in order.
pub open spec fn dir_view(d: Dir) -> DirView
    decreases d,
{
    DirView {
        name: d.name@,
        creation_time: d.creation_time,
        children: Seq::new(
            d.children.len() as nat,
            |i: int|
                if 0 <= i < d.children.len() {
                    node_view(d.children[i])
                } else {
                    arbitrary()
                },
        ),
    }
}

/// The node as a value.
pub open spec fn node_view(n: Node) -> NodeView
    decreases n,
{
    match n {
        Node::File(f) => NodeView::File(f@),
        Node::Dir(d) => NodeView::Dir(dir_view(d)),
    }
}

impl View for Dir {
    type V = DirView;

    open spec fn view(&self) -> DirView {
        dir_view(*self)
    }
}

impl View for Node {
    type V = NodeView;

    open spec fn view(&self) -> NodeView {
        node_view(*self)
    }
}

/// A directory's view holds the views of its children.
pub proof fn lemma_dir_view(d: &Dir)
    ensures
        d@.name == d.name@,
        d@.creation_time == d.creation_time,
        d@.children.len() == d.children.len(),
        forall|i: int| 0 <= i < d.children.len() ==> #[trigger] d@.children[i] == d.children[i]@,
{
}

} // verus!
