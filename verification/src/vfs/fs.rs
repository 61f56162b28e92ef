//! The file system: a root directory, and the operations by path.

use super::clock::creation_time;
use super::model::{descend, empty_dir};
use super::node::{lemma_dir_view, Dir, DirView, File, Node};
use super::query::{conds, node_views, QueryParam, QueryView};
use super::tree::same_text;
use crate::text::{
    first_at, lemma_pieces_nonempty, number, parse_u32, parse_u64, pieces, split, split_terminator,
    texts, trim,
};
use vstd::prelude::*;
use vstd::string::StringExecFns;

verus! {

/// A tree of directories and files under a root whose name is empty.
#[derive(Debug)]
pub struct FileSystem {
    root: Dir,
}

/// What a search found: the queries that some node met, in the order in
/// which they were asked, and the nodes that met a query, in the order
/// of a depth-first walk.
#[derive(Debug, PartialEq, Eq)]
pub struct MatchResult<'a, 'b> {
    pub queries: Vec<&'a str>,
    pub nodes: Vec<&'b Node>,
}

impl Clone for FileSystem {
    /// A copy of the whole tree.
    fn clone(&self) -> (r: Self)
        ensures
            r@ == self@,
    {
        FileSystem { root: self.root.clone() }
    }
}

impl View for FileSystem {
    type V = DirView;

    closed spec fn view(&self) -> DirView {
        self.root@
    }
}

/// The condition that a query states, if it states one: a kind and an
/// argument with one `:` between them. The kinds `larger` and `smaller`
/// take a `u32`, the kinds `newer` and `older` a `u64`.
pub open spec fn condition_of(q: Seq<char>) -> Option<QueryView> {
    let p = pieces(q, ':');
    if p.len() != 2 {
        None
    } else if p[0] == "name"@ {
        Some(QueryView::Name(p[1]))
    } else if p[0] == "content"@ {
        Some(QueryView::Content(p[1]))
    } else if p[0] == "larger"@ {
        match number(p[1]) {
            Some(v) => if v <= u32::MAX {
                Some(QueryView::Larger(v as u32))
            } else {
                None
            },
            None => None,
        }
    } else if p[0] == "smaller"@ {
        match number(p[1]) {
            Some(v) => if v <= u32::MAX {
                Some(QueryView::Smaller(v as u32))
            } else {
                None
            },
            None => None,
        }
    } else if p[0] == "newer"@ {
        match number(p[1]) {
            Some(v) => if v <= u64::MAX {
                Some(QueryView::Newer(v as u64))
            } else {
                None
            },
            None => None,
        }
    } else if p[0] == "older"@ {
        match number(p[1]) {
            Some(v) => if v <= u64::MAX {
                Some(QueryView::Older(v as u64))
            } else {
                None
            },
            None => None,
        }
    } else {
        None
    }
}

/// Reads one query, the one at position `index` of a search.
pub fn parse_query(q: &str, index: usize) -> (r: Option<QueryParam>)
    ensures
        match r {
            Some(p) => condition_of(q@) == Some(p@) && p.index() == index,
            None => condition_of(q@) is None,
        },
{
    let parts = split(q, ':');
    if parts.len() != 2 {
        return None;
    }
    assert(texts(parts@)[0] == parts@[0]@ && texts(parts@)[1] == parts@[1]@);
    let kind = parts[0];
    let arg = parts[1];
    if same_text(kind, "name") {
        Some(QueryParam::Name(String::from_str(arg), index))
    } else if same_text(kind, "content") {
        Some(QueryParam::Content(String::from_str(arg), index))
    } else if same_text(kind, "larger") {
        match parse_u32(arg) {
            Some(l) => Some(QueryParam::Larger(l, index)),
            None => None,
        }
    } else if same_text(kind, "smaller") {
        match parse_u32(arg) {
            Some(l) => Some(QueryParam::Smaller(l, index)),
            None => None,
        }
    } else if same_text(kind, "newer") {
        match parse_u64(arg) {
            Some(l) => Some(QueryParam::Newer(l, index)),
            None => None,
        }
    } else if same_text(kind, "older") {
        match parse_u64(arg) {
            Some(l) => Some(QueryParam::Older(l, index)),
            None => None,
        }
    } else {
        None
    }
}

/// A text that is not empty and begins with an empty piece has a second
/// piece.
pub proof fn lemma_some_piece(path: Seq<char>)
    requires
        path.len() > 0,
        pieces(path, '/')[0].len() == 0,
    ensures
        pieces(path, '/').len() >= 2,
{
    let i = first_at(path, '/');
    if 0 <= i < path.len() {
        lemma_pieces_nonempty(path.skip(i + 1), '/');
    } else {
        assert(pieces(path, '/') =~= seq![path]);
    }
}

/// The conditions that a list of queries states, where each of them
/// states one.
pub open spec fn conditions(queries: Seq<&str>) -> Seq<QueryView> {
    Seq::new(queries.len(), |i: int| condition_of(queries[i]@).unwrap())
}

/// Of the first `k` texts, those whose flag is set, in order.
pub open spec fn kept(names: Seq<Seq<char>>, flags: Seq<bool>, k: int) -> Seq<Seq<char>>
    decreases k,
{
    if k <= 0 {
        Seq::empty()
    } else if flags[k - 1] {
        kept(names, flags, k - 1).push(names[k - 1])
    } else {
        kept(names, flags, k - 1)
    }
}

impl FileSystem {
    /// An empty file system, created now.
    pub fn new() -> (fs: Self)
        ensures
            fs@.name.len() == 0,
            fs@.children.len() == 0,
    {
        Self::new_at(creation_time())
    }

    /// An empty file system, created at `now`.
    pub fn new_at(now: u64) -> (fs: Self)
        ensures
            fs@ == empty_dir(Seq::empty(), now),
    {
        let root = Dir::new_at("", now);
        proof {
            reveal_strlit("");
            assert(""@ =~= Seq::<char>::empty());
        }
        FileSystem { root }
    }

    /// Reserved for loading a tree from a directory on disk; it does
    /// nothing.
    pub fn from_dir(path: &str) {
    }

    /// The root directory.
    pub fn root(&self) -> (r: &Dir)
        ensures
            r@ == self@,
    {
        &self.root
    }

    /// Makes the directory at `path`, created now, if the directory
    /// above it exists and holds no node of that name.
    pub fn mk_dir(&mut self, path: &str)
        ensures
            exists|now: u64| final(self)@ == old(self)@.made(path@, now),
    {
        let now = creation_time();
        self.mk_dir_at(path, now);
    }

    /// Makes the directory at `path`, created at `now`, if the directory
    /// above it exists and holds no node of that name.
    pub fn mk_dir_at(&mut self, path: &str, now: u64)
        ensures
            final(self)@ == old(self)@.made(path@, now),
    {
        let parts = split(path, '/');
        assert(texts(parts@)[0] == parts@[0]@);
        if !same_text(parts[0], self.root.name.as_str()) {
            return ;
        }
        self.root.mk_dir(&parts, 1, now);
    }

    /// Removes the node at `path`, unless it is a directory that has
    /// children.
    pub fn rm_dir(&mut self, path: &str)
        ensures
            final(self)@ == old(self)@.removed(path@),
    {
        let parts = split(path, '/');
        assert(texts(parts@)[0] == parts@[0]@);
        if !same_text(parts[0], self.root.name.as_str()) {
            return ;
        }
        self.root.rm_dir(&parts, 1);
    }

    /// Adds `file` in the directory at `path` and says whether it did.
    /// The directory must not hold a file of that name yet.
    pub fn new_file(&mut self, path: &str, file: File) -> (added: bool)
        requires
            old(self)@.placed(path@, file@) is Some,
        ensures
            (final(self)@, added) == old(self)@.placed(path@, file@).unwrap(),
    {
        let dirs = split_terminator(trim(path), '/');
        assert(texts(dirs@).skip(0) =~= texts(dirs@));
        self.root.new_file(&dirs, 0, file)
    }

    /// Adds `file` in the directory at `path` if that directory holds no
    /// file of that name yet, and says whether it added. Returns `None`,
    /// and changes nothing, if it does hold one.
    pub fn try_new_file(&mut self, path: &str, file: File) -> (r: Option<bool>)
        ensures
            match r {
                Some(added) => old(self)@.placed(path@, file@) == Some((final(self)@, added)),
                None => old(self)@.placed(path@, file@) is None && final(self)@ == old(self)@,
            },
    {
        let dirs = split_terminator(trim(path), '/');
        assert(texts(dirs@).skip(0) =~= texts(dirs@));
        if self.root.can_new_file(&dirs, 0, &file) {
            Some(self.root.new_file(&dirs, 0, file))
        } else {
            None
        }
    }

    /// The file at `path`, if there is one.
    pub fn get_file(&self, path: &str) -> (r: Option<&Node>)
        requires
            self@.can_locate(path@),
        ensures
            match r {
                Some(n) => self@.located(path@) == Some(n@),
                None => self@.located(path@) is None,
            },
    {
        let parts = split(path, '/');
        let ghost p = texts(parts@);
        assert(p[0] == parts@[0]@);
        if parts[0].unicode_len() != 0 {
            return None;
        }
        assert(parts.len() >= 2);
        assert(p[1] == parts@[1]@);
        proof {
            lemma_dir_view(&self.root);
        }
        let first = match self.root.contains_dir(parts[1]) {
            None => {
                return None;
            },
            Some(i) => &self.root.children[i],
        };
        let mut curr: &Dir = match first {
            Node::Dir(d) => d,
            Node::File(_) => {
                return None;
            },
        };
        assert(parts.len() >= 3);
        let last = parts.len() - 1;
        let mut k: usize = 2;
        while k < last
            invariant
                2 <= k <= last,
                last == parts.len() - 1,
                p == texts(parts@),
                self@.located(path@) == descend(curr@, p.skip(k as int)),
            decreases last - k,
        {
            let ghost names = p.skip(k as int);
            assert(names[0] == parts@[k as int]@);
            assert(names.skip(1) =~= p.skip(k + 1));
            proof {
                lemma_dir_view(curr);
            }
            let next = match curr.contains_mut(parts[k]) {
                None => {
                    return None;
                },
                Some(j) => &curr.children[j],
            };
            match next {
                Node::Dir(d) => {
                    curr = d;
                },
                Node::File(_) => {
                    return None;
                },
            }
            k += 1;
        }
        let ghost names = p.skip(last as int);
        assert(names[0] == parts@[last as int]@);
        assert(names.len() == 1);
        proof {
            lemma_dir_view(curr);
        }
        match curr.contains_mut(parts[last]) {
            Some(j) => {
                let node = &curr.children[j];
                match node {
                    Node::File(_) => Some(node),
                    Node::Dir(_) => None,
                }
            },
            None => None,
        }
    }

    /// The file at `path`, walked from the root, if there is one. The
    /// path must not be empty.
    pub fn get_file_from_root(&self, path: &str) -> (r: Option<&Node>)
        requires
            path@.len() > 0,
        ensures
            match r {
                Some(n) => self@.located_from_root(path@) == Some(n@),
                None => self@.located_from_root(path@) is None,
            },
    {
        let parts = split(path, '/');
        let ghost p = texts(parts@);
        assert(p[0] == parts@[0]@);
        if parts[0].unicode_len() != 0 {
            return None;
        }
        proof {
            lemma_some_piece(path@);
        }
        let last = parts.len() - 1;
        let mut curr: &Dir = &self.root;
        let mut k: usize = 1;
        while k < last
            invariant
                1 <= k <= last,
                last == parts.len() - 1,
                p == texts(parts@),
                self@.located_from_root(path@) == descend(curr@, p.skip(k as int)),
            decreases last - k,
        {
            let ghost names = p.skip(k as int);
            assert(names[0] == parts@[k as int]@);
            assert(names.skip(1) =~= p.skip(k + 1));
            proof {
                lemma_dir_view(curr);
            }
            let next = match curr.contains_mut(parts[k]) {
                None => {
                    return None;
                },
                Some(j) => &curr.children[j],
            };
            match next {
                Node::Dir(d) => {
                    curr = d;
                },
                Node::File(_) => {
                    return None;
                },
            }
            k += 1;
        }
        let ghost names = p.skip(last as int);
        assert(names[0] == parts@[last as int]@);
        assert(names.len() == 1);
        proof {
            lemma_dir_view(curr);
        }
        match curr.contains_mut(parts[last]) {
            Some(j) => {
                let node = &curr.children[j];
                match node {
                    Node::File(_) => Some(node),
                    Node::Dir(_) => None,
                }
            },
            None => None,
        }
    }

    /// Searches the tree for the nodes that meet a query. Returns `None`
    /// if a query cannot be read; otherwise the nodes found, in the
    /// order of a depth-first walk, and the queries that a node has met,
    /// in the order given.
    pub fn search<'a, 'b>(&'b self, queries: &[&'a str]) -> (r: Option<MatchResult<'a, 'b>>)
        ensures
            r is Some <==> forall|i: int|
                0 <= i < queries@.len() ==> condition_of(#[trigger] queries@[i]@) is Some,
            r matches Some(m) ==> node_views(m.nodes@) == self@.hits(conditions(queries@))
                && texts(m.queries@) == kept(
                texts(queries@),
                Seq::new(queries@.len(), |i: int| self@.touched(conditions(queries@)[i])),
                queries@.len() as int,
            ),
    {
        let mut final_queries: Vec<(QueryParam, bool)> = Vec::new();
        let n = queries.len();
        let mut index: usize = 0;
        while index < n
            invariant
                index <= n,
                n == queries@.len(),
                final_queries@.len() == index,
                forall|i: int|
                    0 <= i < index ==> condition_of(#[trigger] queries@[i]@)
                        == Some(final_queries@[i].0@)
                        && final_queries@[i].0.index() == i && !final_queries@[i].1,
            decreases n - index,
        {
            match parse_query(queries[index], index) {
                Some(q) => {
                    final_queries.push((q, false));
                },
                None => {
                    return None;
                },
            }
            index += 1;
        }
        let ghost asked = final_queries@;
        proof {
            assert(conds(asked) =~= conditions(queries@));
        }
        let nodes = self.root.query(&mut final_queries);
        let ghost flags = Seq::new(queries@.len(), |i: int| self@.touched(conditions(queries@)[i]));
        proof {
            assert forall|i: int| 0 <= i < n implies (#[trigger] final_queries@[i]).0.index() == i
                && final_queries@[i].1 == flags[i] by {
                assert(final_queries@[i].0 == asked[i].0);
                assert(condition_of(queries@[i]@) == Some(asked[i].0@));
            }
        }
        let mut matched: Vec<&'a str> = Vec::new();
        let mut k: usize = 0;
        while k < n
            invariant
                k <= n,
                n == queries@.len(),
                final_queries@.len() == n,
                flags.len() == n,
                forall|i: int|
                    0 <= i < n ==> (#[trigger] final_queries@[i]).0.index() == i
                        && final_queries@[i].1
                        == flags[i],
                texts(matched@) == kept(texts(queries@), flags, k as int),
            decreases n - k,
        {
            if final_queries[k].1 {
                let at = final_queries[k].0.get_index();
                let ghost before = matched@;
                matched.push(queries[at]);
                assert(texts(matched@) =~= texts(before).push(queries@[k as int]@));
            }
            k += 1;
        }
        Some(MatchResult { queries: matched, nodes })
    }
}

} // verus!
