//! The operations on nodes and directories.

use super::clock::creation_time;
use super::model::{dir_named, empty_dir, file_named, first_where, lemma_first_where, named};
use super::node::{Dir, File, Node, NodeView};
use crate::text::texts;
use vstd::prelude::*;
use vstd::string::StringExecFns;

verus! {

/// Whether two texts are the same.
pub fn same_text(a: &str, b: &str) -> (r: bool)
    ensures
        r == (a@ == b@),
{
    let n = a.unicode_len();
    if n != b.unicode_len() {
        return false;
    }
    let mut i: usize = 0;
    while i < n
        invariant
            i <= n,
            n == a@.len(),
            n == b@.len(),
            forall|j: int| 0 <= j < i ==> a@[j] == b@[j],
        decreases n - i,
    {
        if a.get_char(i) != b.get_char(i) {
            return false;
        }
        i += 1;
    }
    assert(a@ =~= b@);
    true
}

impl Node {
    /// The name of the node.
    pub fn get_name(&self) -> (r: &str)
        ensures
            r@ == self@.name(),
    {
        match self {
            Node::Dir(d) => d.name.as_str(),
            Node::File(f) => f.name.as_str(),
        }
    }

    /// The bytes of a file; a directory has none.
    pub fn get_content(&self) -> (r: Option<&Vec<u8>>)
        ensures
            r matches Some(c) ==> self@ is File && c@ == self@->File_0.content,
            r is None <==> self@ is Dir,
    {
        match self {
            Node::Dir(_) => None,
            Node::File(f) => Some(&f.content),
        }
    }

    /// When the node was created.
    pub fn get_creation_time(&self) -> (r: u64)
        ensures
            r == self@.creation_time(),
    {
        match self {
            Node::Dir(d) => d.creation_time,
            Node::File(f) => f.creation_time,
        }
    }

    /// How many children a directory has; a file has none.
    pub fn children_len(&self) -> (r: usize)
        ensures
            r == match self@ {
                NodeView::Dir(d) => d.children.len(),
                NodeView::File(_) => 0,
            },
    {
        match self {
            Node::Dir(d) => d.children.len(),
            _ => 0,
        }
    }

    /// Whether the node is a file.
    pub fn is_file(&self) -> (r: bool)
        ensures
            r == self@ is File,
    {
        match self {
            Node::File(_) => true,
            _ => false,
        }
    }

    /// Whether the node is a directory.
    pub fn is_dir(&self) -> (r: bool)
        ensures
            r == self@ is Dir,
    {
        match self {
            Node::Dir(_) => true,
            _ => false,
        }
    }

    /// The directory that the node is, if it is one.
    pub fn as_dir(&self) -> (r: Option<&Dir>)
        ensures
            r matches Some(d) ==> self@ == NodeView::Dir(d@),
            r is Some <==> self@ is Dir,
    {
        match self {
            Node::Dir(d) => Some(d),
            _ => None,
        }
    }

    /// The file that the node is, if it is one.
    pub fn as_file(&self) -> (r: Option<&File>)
        ensures
            r matches Some(f) ==> self@ == NodeView::File(f@),
            r is Some <==> self@ is File,
    {
        match self {
            Node::File(f) => Some(f),
            _ => None,
        }
    }
}

impl Dir {
    /// An empty directory of this name, created now.
    pub fn new(name: &str) -> (d: Dir)
        ensures
            d@.name == name@,
            d@.children.len() == 0,
    {
        Dir::new_at(name, creation_time())
    }

    /// An empty directory of this name, created at `now`.
    pub fn new_at(name: &str, now: u64) -> (d: Dir)
        ensures
            d@ == empty_dir(name@, now),
    {
        let d = Dir { name: String::from_str(name), creation_time: now, children: Vec::new() };
        assert(d@.children =~= Seq::empty());
        d
    }

    /// The child at `index`, if there is one.
    pub fn get_child_mut(&self, index: usize) -> (r: Option<&Node>)
        ensures
            r matches Some(n) ==> index < self@.children.len() && n@
                == self@.children[index as int],
            r is Some <==> index < self@.children.len(),
    {
        if index < self.children.len() {
            Some(&self.children[index])
        } else {
            None
        }
    }

    /// The position of the first child of this name, file or directory.
    pub fn contains_mut(&self, name: &str) -> (r: Option<usize>)
        ensures
            match r {
                Some(i) => i < self@.children.len() && i == first_where(self@.children,
                    named(name@))
                    && named(name@)(self@.children[i as int]),
                None => first_where(self@.children, named(name@)) == self@.children.len(),
            },
    {
        let n = self.children.len();
        let mut i: usize = 0;
        while i < n
            invariant
                i <= n,
                n == self@.children.len(),
                forall|j: int| 0 <= j < i ==> !named(name@)(#[trigger] self@.children[j]),
            decreases n - i,
        {
            if same_text(self.children[i].get_name(), name) {
                proof {
                    lemma_first_where(self@.children, named(name@), i as int);
                }
                return Some(i);
            }
            i += 1;
        }
        proof {
            lemma_first_where(self@.children, named(name@), n as int);
        }
        None
    }

    /// The position of the first file of this name among the children.
    pub fn contains_file(&self, name: &str) -> (r: Option<usize>)
        ensures
            match r {
                Some(i) => i < self@.children.len() && i == first_where(self@.children,
                    file_named(name@))
                    && file_named(name@)(self@.children[i as int]),
                None => first_where(self@.children, file_named(name@)) == self@.children.len(),
            },
    {
        let n = self.children.len();
        let mut i: usize = 0;
        while i < n
            invariant
                i <= n,
                n == self@.children.len(),
                forall|j: int| 0 <= j < i ==> !file_named(name@)(#[trigger] self@.children[j]),
            decreases n - i,
        {
            if self.children[i].is_file() && same_text(self.children[i].get_name(), name) {
                proof {
                    lemma_first_where(self@.children, file_named(name@), i as int);
                }
                return Some(i);
            }
            i += 1;
        }
        proof {
            lemma_first_where(self@.children, file_named(name@), n as int);
        }
        None
    }

    /// The position of the first directory of this name among the
    /// children.
    pub fn contains_dir(&self, name: &str) -> (r: Option<usize>)
        ensures
            match r {
                Some(i) => i < self@.children.len() && i == first_where(self@.children,
                    dir_named(name@))
                    && dir_named(name@)(self@.children[i as int]),
                None => first_where(self@.children, dir_named(name@)) == self@.children.len(),
            },
    {
        let n = self.children.len();
        let mut i: usize = 0;
        while i < n
            invariant
                i <= n,
                n == self@.children.len(),
                forall|j: int| 0 <= j < i ==> !dir_named(name@)(#[trigger] self@.children[j]),
            decreases n - i,
        {
            if self.children[i].is_dir() && same_text(self.children[i].get_name(), name) {
                proof {
                    lemma_first_where(self@.children, dir_named(name@), i as int);
                }
                return Some(i);
            }
            i += 1;
        }
        proof {
            lemma_first_where(self@.children, dir_named(name@), n as int);
        }
        None
    }

    /// Makes a directory at the path `path[from..]`, which leads down
    /// from this directory.
    pub fn mk_dir(&mut self, path: &Vec<&str>, from: usize, now: u64)
        requires
            from <= path.len(),
        ensures
            final(self)@ == old(self)@.with_dir(texts(path@).skip(from as int), now),
        decreases path.len() - from,
    {
        let ghost rest = texts(path@).skip(from as int);
        let ghost before = self@;
        if from >= path.len() {
            assert(rest.len() == 0);
            return ;
        }
        let next = path[from];
        assert(rest[0] == next@);
        let found = self.contains_mut(next);
        if from + 1 == path.len() {
            assert(rest.len() == 1);
            if found.is_none() {
                self.children.push(Node::Dir(Dir::new_at(next, now)));
                assert(self@.children =~= before.children.push(NodeView::Dir(empty_dir(next@,
                    now))));
            }
            return ;
        }
        assert(rest.len() > 1);
        if let Some(i) = found {
            assert(self@.children.len() == self.children.len());
            assert(i < self.children.len());
            match &mut self.children[i] {
                Node::Dir(sub) => {
                    sub.mk_dir(path, from + 1, now);
                },
                Node::File(_) => {},
            }
            proof {
                assert(texts(path@).skip(from + 1) =~= rest.skip(1));
                assert(self.children.len() == old(self).children.len());
                assert forall|j: int| 0 <= j < self.children.len() && j != i
                    implies self.children[j]
                    == old(self).children[j] by {}
                if before.children[i as int] is Dir {
                    assert(self@.children =~= before.children.update(
                        i as int,
                        NodeView::Dir(before.children[i as int]->Dir_0.with_dir(rest.skip(1), now)),
                    ));
                } else {
                    assert(self.children[i as int] == old(self).children[i as int]);
                    assert(self@.children =~= before.children);
                }
            }
        }
    }

    /// Removes the node at the path `path[from..]`, which leads down
    /// from this directory, unless it is a directory with children.
    pub fn rm_dir(&mut self, path: &Vec<&str>, from: usize)
        requires
            from <= path.len(),
        ensures
            final(self)@ == old(self)@.without_dir(texts(path@).skip(from as int)),
        decreases path.len() - from,
    {
        let ghost rest = texts(path@).skip(from as int);
        let ghost before = self@;
        if from >= path.len() {
            assert(rest.len() == 0);
            return ;
        }
        let next = path[from];
        assert(rest[0] == next@);
        let i = match self.contains_mut(next) {
            None => {
                return ;
            },
            Some(i) => i,
        };
        assert(self@.children.len() == self.children.len());
        if from + 1 == path.len() {
            assert(rest.len() == 1);
            if let Node::Dir(sub) = &self.children[i] {
                assert(sub@.children.len() == sub.children.len());
                if sub.children.len() != 0 {
                    return ;
                }
            }
            self.children.remove(i);
            assert(self@.children =~= before.children.remove(i as int));
            return ;
        }
        assert(rest.len() > 1);
        match &mut self.children[i] {
            Node::Dir(sub) => {
                sub.rm_dir(path, from + 1);
            },
            Node::File(_) => {},
        }
        proof {
            assert(texts(path@).skip(from + 1) =~= rest.skip(1));
            assert(self.children.len() == old(self).children.len());
            assert forall|j: int| 0 <= j < self.children.len() && j != i implies self.children[j]
                == old(
                self,
            ).children[j] by {}
            if before.children[i as int] is Dir {
                assert(self@.children =~= before.children.update(
                    i as int,
                    NodeView::Dir(before.children[i as int]->Dir_0.without_dir(rest.skip(1))),
                ));
            } else {
                assert(self.children[i as int] == old(self).children[i as int]);
                assert(self@.children =~= before.children);
            }
        }
    }

    /// Adds `file` in the directory at the path `path[from..]`, which
    /// begins with the name of this directory, and says whether it did.
    ///
    /// The directory at the path must not hold a file of that name yet.
    pub fn new_file(&mut self, path: &Vec<&str>, from: usize, file: File) -> (added: bool)
        requires
            from <= path.len(),
            old(self)@.with_file(texts(path@).skip(from as int), file@) is Some,
        ensures
            (final(self)@, added) == old(self)@.with_file(
                texts(path@).skip(from as int),
                file@,
            ).unwrap(),
        decreases path.len() - from,
    {
        let ghost rest = texts(path@).skip(from as int);
        let ghost before = self@;
        let ghost fv = file@;
        if from >= path.len() {
            assert(rest.len() == 0);
            return false;
        }
        let curr = path[from];
        assert(rest[0] == curr@);
        if !same_text(self.name.as_str(), curr) {
            return false;
        }
        assert(self@.children.len() == self.children.len());
        if from + 1 == path.len() {
            assert(rest.len() == 1);
            if self.contains_file(file.name.as_str()).is_none() {
                self.children.push(Node::File(file));
                assert(self@.children =~= before.children.push(NodeView::File(fv)));
                return true;
            }
            return false;
        }
        assert(rest.len() > 1);
        assert(rest[1] == path@[from + 1]@);
        match self.contains_dir(path[from + 1]) {
            Some(i) => {
                assert(before.children[i as int] is Dir);
                assert(texts(path@).skip(from + 1) =~= rest.skip(1));
                let added = match &mut self.children[i] {
                    Node::Dir(sub) => sub.new_file(path, from + 1, file),
                    Node::File(_) => false,
                };
                proof {
                    assert(self.children.len() == old(self).children.len());
                    assert forall|j: int| 0 <= j < self.children.len() && j != i
                        implies self.children[j]
                        == old(self).children[j] by {}
                    assert(self@.children =~= before.children.update(
                        i as int,
                        NodeView::Dir(
                            before.children[i as int]->Dir_0.with_file(rest.skip(1), fv).unwrap().0,
                        ),
                    ));
                }
                added
            },
            None => false,
        }
    }

    /// Whether [`Dir::new_file`] is defined for this path and file: it
    /// is unless the directory at the path holds a file of that name.
    pub fn can_new_file(&self, path: &Vec<&str>, from: usize, file: &File) -> (r: bool)
        requires
            from <= path.len(),
        ensures
            r == self@.with_file(texts(path@).skip(from as int), file@) is Some,
        decreases path.len() - from,
    {
        let ghost rest = texts(path@).skip(from as int);
        if from >= path.len() {
            assert(rest.len() == 0);
            return true;
        }
        let curr = path[from];
        assert(rest[0] == curr@);
        if !same_text(self.name.as_str(), curr) {
            return true;
        }
        assert(self@.children.len() == self.children.len());
        if from + 1 == path.len() {
            assert(rest.len() == 1);
            return self.contains_file(file.name.as_str()).is_none();
        }
        assert(rest.len() > 1);
        assert(rest[1] == path@[from + 1]@);
        match self.contains_dir(path[from + 1]) {
            Some(i) => {
                assert(texts(path@).skip(from + 1) =~= rest.skip(1));
                match &self.children[i] {
                    Node::Dir(sub) => sub.can_new_file(path, from + 1, file),
                    Node::File(_) => true,
                }
            },
            None => true,
        }
    }

    /// Removes the first file of this name among the children, if there
    /// is one.
    pub fn remove(&mut self, name: &str)
        ensures
            final(self)@ == if first_where(old(self)@.children, file_named(name@)) < old(
                self,
            )@.children.len() {
                old(self)@.with_children(
                    old(self)@.children.remove(first_where(old(self)@.children, file_named(name@))),
                )
            } else {
                old(self)@
            },
    {
        let ghost before = self@;
        match self.contains_file(name) {
            Some(pos) => {
                assert(self@.children.len() == self.children.len());
                self.children.remove(pos);
                assert(self@.children =~= before.children.remove(pos as int));
            },
            None => {},
        }
    }
}

impl Clone for Dir {
    /// A copy of the directory with all that is below it.
    fn clone(&self) -> (r: Self)
        ensures
            r@ == self@,
        decreases self,
    {
        let mut children: Vec<Node> = Vec::new();
        let n = self.children.len();
        let mut k: usize = 0;
        while k < n
            invariant
                k <= n,
                n == self.children.len(),
                children@.len() == k,
                forall|i: int| 0 <= i < k ==> (#[trigger] children@[i])@ == self.children[i]@,
            decreases n - k,
        {
            children.push(self.children[k].clone());
            k += 1;
        }
        let r = Dir { name: self.name.clone(), creation_time: self.creation_time, children };
        assert(r@.children =~= self@.children);
        r
    }
}

impl Clone for Node {
    /// A copy of the node with all that is below it.
    fn clone(&self) -> (r: Self)
        ensures
            r@ == self@,
        decreases self,
    {
        match self {
            Node::File(f) => Node::File(f.clone()),
            Node::Dir(d) => Node::Dir(d.clone()),
        }
    }
}

} // verus!
