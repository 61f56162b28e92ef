//! Queries: conditions on nodes, and the search for the nodes that meet
//! them.

use super::node::{lemma_dir_view, Dir, DirView, File, FileView, Node, NodeView};
use super::tree::same_text;
use crate::text::{contains, occurs_in, utf8_text};
use vstd::prelude::*;
use vstd::utf8::{decode_utf8, valid_utf8};

verus! {

/// One condition of a search, with the position of the query that it
/// was read from.
#[derive(Debug)]
pub enum QueryParam {
    Name(String, usize),
    Content(String, usize),
    Larger(u32, usize),
    Smaller(u32, usize),
    Newer(u64, usize),
    Older(u64, usize),
}

/// A condition as a value.
pub enum QueryView {
    Name(Seq<char>),
    Content(Seq<char>),
    Larger(u32),
    Smaller(u32),
    Newer(u64),
    Older(u64),
}

impl View for QueryParam {
    type V = QueryView;

    open spec fn view(&self) -> QueryView {
        match self {
            QueryParam::Name(s, _) => QueryView::Name(s@),
            QueryParam::Content(s, _) => QueryView::Content(s@),
            QueryParam::Larger(n, _) => QueryView::Larger(*n),
            QueryParam::Smaller(n, _) => QueryView::Smaller(*n),
            QueryParam::Newer(t, _) => QueryView::Newer(*t),
            QueryParam::Older(t, _) => QueryView::Older(*t),
        }
    }
}

/// The bytes are valid UTF-8 and the text that they encode holds
/// `needle`.
pub open spec fn text_holds(bytes: Seq<u8>, needle: Seq<char>) -> bool {
    valid_utf8(bytes) && occurs_in(needle, decode_utf8(bytes))
}

impl QueryView {
    /// Whether a node in the tree meets the condition. A name is met by
    /// every name that holds it. Conditions on content and size are met
    /// by files only, the size being taken as a 32-bit number.
    pub open spec fn holds_of(self, n: NodeView) -> bool {
        match self {
            QueryView::Name(s) => occurs_in(s, n.name()),
            QueryView::Content(s) => n matches NodeView::File(f) && text_holds(f.content, s),
            QueryView::Larger(k) => n matches NodeView::File(f) && (f.content.len() as u32) > k,
            QueryView::Smaller(k) => n matches NodeView::File(f) && (f.content.len() as u32) < k,
            QueryView::Newer(t) => n.creation_time() > t,
            QueryView::Older(t) => n.creation_time() < t,
        }
    }

    /// Whether a directory by itself meets the condition: its name must
    /// be exactly the one asked for, and it has neither content nor size.
    pub open spec fn holds_of_dir(self, d: DirView) -> bool {
        match self {
            QueryView::Name(s) => d.name == s,
            QueryView::Newer(t) => d.creation_time > t,
            QueryView::Older(t) => d.creation_time < t,
            _ => false,
        }
    }

    /// Whether a file by itself meets the condition: its name must be
    /// exactly the one asked for.
    pub open spec fn holds_of_file(self, f: FileView) -> bool {
        match self {
            QueryView::Name(s) => f.name == s,
            QueryView::Content(s) => text_holds(f.content, s),
            QueryView::Larger(k) => f.content.len() > k,
            QueryView::Smaller(k) => f.content.len() < k,
            QueryView::Newer(t) => f.creation_time > t,
            QueryView::Older(t) => f.creation_time < t,
        }
    }
}

impl Clone for QueryParam {
    fn clone(&self) -> (r: Self)
        ensures
            r@ == self@,
            r.index() == self.index(),
    {
        match self {
            QueryParam::Name(s, i) => QueryParam::Name(s.clone(), *i),
            QueryParam::Content(s, i) => QueryParam::Content(s.clone(), *i),
            QueryParam::Larger(n, i) => QueryParam::Larger(*n, *i),
            QueryParam::Smaller(n, i) => QueryParam::Smaller(*n, *i),
            QueryParam::Newer(t, i) => QueryParam::Newer(*t, *i),
            QueryParam::Older(t, i) => QueryParam::Older(*t, *i),
        }
    }
}

impl QueryParam {
    /// The position of the query that the condition was read from.
    pub open spec fn index(self) -> usize {
        match self {
            QueryParam::Name(_, i) => i,
            QueryParam::Content(_, i) => i,
            QueryParam::Larger(_, i) => i,
            QueryParam::Smaller(_, i) => i,
            QueryParam::Newer(_, i) => i,
            QueryParam::Older(_, i) => i,
        }
    }

    /// Whether `node` meets the condition.
    pub fn match_value(&self, node: &Node) -> (r: bool)
        ensures
            r == self@.holds_of(node@),
    {
        match self {
            QueryParam::Name(name, _) => contains(node.get_name(), name.as_str()),
            QueryParam::Content(content, _) => match node.get_content() {
                None => false,
                Some(c) => match utf8_text(c.as_slice()) {
                    Some(s) => contains(s, content.as_str()),
                    None => false,
                },
            },
            QueryParam::Larger(size, _) => match node.get_size() {
                Some(s) => s > *size,
                None => false,
            },
            QueryParam::Smaller(size, _) => match node.get_size() {
                Some(s) => s < *size,
                None => false,
            },
            QueryParam::Newer(time, _) => node.get_creation_time() > *time,
            QueryParam::Older(time, _) => node.get_creation_time() < *time,
        }
    }

    /// Whether the directory `dir` by itself meets the condition.
    pub fn match_dir(&self, dir: &Dir) -> (r: bool)
        ensures
            r == self@.holds_of_dir(dir@),
    {
        match self {
            QueryParam::Name(name, _) => same_text(dir.name.as_str(), name.as_str()),
            QueryParam::Newer(time, _) => dir.creation_time > *time,
            QueryParam::Older(time, _) => dir.creation_time < *time,
            _ => false,
        }
    }

    /// Whether the file `file` by itself meets the condition.
    pub fn match_file(&self, file: &File) -> (r: bool)
        ensures
            r == self@.holds_of_file(file@),
    {
        match self {
            QueryParam::Name(name, _) => same_text(file.name.as_str(), name.as_str()),
            QueryParam::Content(content, _) => match utf8_text(file.content.as_slice()) {
                Some(s) => contains(s, content.as_str()),
                None => false,
            },
            QueryParam::Larger(size, _) => file.content.len() > (*size as usize),
            QueryParam::Smaller(size, _) => file.content.len() < (*size as usize),
            QueryParam::Newer(time, _) => file.creation_time > *time,
            QueryParam::Older(time, _) => file.creation_time < *time,
        }
    }

    /// The position of the query that the condition was read from.
    pub fn get_index(&self) -> (r: usize)
        ensures
            r == self.index(),
    {
        match self {
            QueryParam::Name(_, i) => *i,
            QueryParam::Content(_, i) => *i,
            QueryParam::Larger(_, i) => *i,
            QueryParam::Smaller(_, i) => *i,
            QueryParam::Newer(_, i) => *i,
            QueryParam::Older(_, i) => *i,
        }
    }
}

impl Node {
    /// The size of a file as a 32-bit number; a directory has none.
    pub fn get_size(&self) -> (r: Option<u32>)
        ensures
            r == match self@ {
                NodeView::Dir(_) => None,
                NodeView::File(f) => Some(f.content.len() as u32),
            },
    {
        match self {
            Node::Dir(_) => None,
            Node::File(f) => Some(#[verifier::truncate] (f.content.len() as u32)),
        }
    }
}

/// The conditions of a list of queries, without their marks.
pub open spec fn conds(qs: Seq<(QueryParam, bool)>) -> Seq<QueryView> {
    Seq::new(qs.len(), |i: int| qs[i].0@)
}

/// The nodes as values.
pub open spec fn node_views(nodes: Seq<&Node>) -> Seq<NodeView> {
    Seq::new(nodes.len(), |i: int| nodes[i]@)
}

/// Some condition of `qs` is met by the node.
pub open spec fn any_holds(qs: Seq<QueryView>, n: NodeView) -> bool {
    exists|i: int| 0 <= i < qs.len() && (#[trigger] qs[i]).holds_of(n)
}

/// The nodes found at and below `n`: `n` itself if it meets a condition,
/// then what is found below it.
pub open spec fn node_hits(n: NodeView, qs: Seq<QueryView>) -> Seq<NodeView>
    decreases n, 0int,
{
    let own = if any_holds(qs, n) {
        seq![n]
    } else {
        Seq::empty()
    };
    match n {
        NodeView::Dir(d) => own + list_hits(d.children, qs, d.children.len() as int),
        NodeView::File(_) => own,
    }
}

/// The nodes found at and below the first `k` nodes of `s`, each node
/// before its descendants and before the nodes that follow it.
pub open spec fn list_hits(s: Seq<NodeView>, qs: Seq<QueryView>, k: int) -> Seq<NodeView>
    decreases s, k,
{
    if k <= 0 || k > s.len() {
        Seq::empty()
    } else {
        list_hits(s, qs, k - 1) + node_hits(s[k - 1], qs)
    }
}

/// The condition is met by `n` or by a node below it.
pub open spec fn node_touched(n: NodeView, q: QueryView) -> bool
    decreases n, 0int,
{
    q.holds_of(n) || match n {
        NodeView::Dir(d) => list_touched(d.children, q, d.children.len() as int),
        NodeView::File(_) => false,
    }
}

/// The condition is met by one of the first `k` nodes of `s` or by a
/// node below one of them.
pub open spec fn list_touched(s: Seq<NodeView>, q: QueryView, k: int) -> bool
    decreases s, k,
{
    if k <= 0 || k > s.len() {
        false
    } else {
        list_touched(s, q, k - 1) || node_touched(s[k - 1], q)
    }
}

impl DirView {
    /// The nodes below this directory that meet one of the conditions,
    /// in the order of a depth-first walk.
    pub open spec fn hits(self, qs: Seq<QueryView>) -> Seq<NodeView> {
        list_hits(self.children, qs, self.children.len() as int)
    }

    /// Whether a node below this directory meets the condition.
    pub open spec fn touched(self, q: QueryView) -> bool {
        list_touched(self.children, q, self.children.len() as int)
    }
}

impl Node {
    /// Marks the queries whose condition this node meets, and says
    /// whether there is one.
    pub fn match_queries(&self, queries: &mut Vec<(QueryParam, bool)>) -> (matched: bool)
        ensures
            matched == any_holds(conds(old(queries)@), self@),
            final(queries)@.len() == old(queries)@.len(),
            forall|i: int|
                0 <= i < old(queries)@.len() ==> (#[trigger] final(queries)@[i]).0
                    == old(queries)@[i].0
                    && final(queries)@[i].1 == (old(queries)@[i].1 || old(queries)@[i].0@.holds_of(
                    self@,
                )),
    {
        let mut query_matched = false;
        let n = queries.len();
        let mut i: usize = 0;
        while i < n
            invariant
                i <= n,
                n == queries@.len(),
                n == old(queries)@.len(),
                query_matched == exists|j: int|
                    0 <= j < i && (#[trigger] conds(old(queries)@)[j]).holds_of(self@),
                forall|j: int|
                    0 <= j < n ==> (#[trigger] queries@[j]).0 == old(queries)@[j].0
                        && queries@[j].1 == (
                    old(queries)@[j].1 || (j < i && old(queries)@[j].0@.holds_of(self@))),
            decreases n - i,
        {
            if queries[i].0.match_value(self) {
                queries[i].1 = true;
                query_matched = true;
                assert(conds(old(queries)@)[i as int].holds_of(self@));
            }
            i += 1;
        }
        query_matched
    }
}

impl Dir {
    /// Searches the tree below this directory. Returns the nodes that
    /// meet one of the conditions, in the order of a depth-first walk,
    /// and marks the queries whose condition a node has met.
    pub fn query<'a>(&'a self, queries: &mut Vec<(QueryParam, bool)>) -> (nodes: Vec<&'a Node>)
        ensures
            node_views(nodes@) == self@.hits(conds(old(queries)@)),
            final(queries)@.len() == old(queries)@.len(),
            forall|i: int|
                0 <= i < old(queries)@.len() ==> (#[trigger] final(queries)@[i]).0
                    == old(queries)@[i].0
                    && final(queries)@[i].1 == (old(queries)@[i].1 || self@.touched(
                    old(queries)@[i].0@,
                )),
        decreases self,
    {
        let ghost qs = conds(queries@);
        let ghost kids = self@.children;
        let mut nodes: Vec<&'a Node> = Vec::new();
        let n = self.children.len();
        let mut k: usize = 0;
        proof {
            lemma_dir_view(self);
        }
        while k < n
            invariant
                k <= n,
                n == self.children.len(),
                kids == self@.children,
                n == kids.len(),
                forall|i: int| 0 <= i < n ==> #[trigger] kids[i] == self.children[i]@,
                qs == conds(old(queries)@),
                queries@.len() == old(queries)@.len(),
                node_views(nodes@) == list_hits(kids, qs, k as int),
                forall|i: int|
                    0 <= i < queries@.len() ==> (#[trigger] queries@[i]).0 == old(queries)@[i].0
                        && queries@[i].1 == (old(queries)@[i].1 || list_touched(
                        kids,
                        old(queries)@[i].0@,
                        k as int,
                    )),
            decreases n - k,
        {
            let child = &self.children[k];
            let ghost before = queries@;
            let ghost found = nodes@;
            assert(conds(before) =~= qs);
            if child.match_queries(queries) {
                nodes.push(child);
            }
            let ghost own = if any_holds(qs, child@) {
                seq![child@]
            } else {
                Seq::<NodeView>::empty()
            };
            assert(node_views(nodes@) =~= node_views(found) + own);
            let ghost marked = queries@;
            assert(conds(marked) =~= qs);
            match child {
                Node::Dir(dir) => {
                    let mut below = dir.query(queries);
                    let ghost low = below@;
                    let ghost high = nodes@;
                    nodes.append(&mut below);
                    proof {
                        assert(child@ == NodeView::Dir(dir@));
                        assert(node_views(nodes@) =~= node_views(high) + node_views(low));
                        assert(node_views(high) + node_views(low) =~= node_views(found) + (own
                            + node_views(low)));
                        assert(node_hits(child@, qs) == own + dir@.hits(qs));
                        assert forall|i: int| 0 <= i < queries@.len()
                            implies (#[trigger] queries@[i]).0
                            == old(queries)@[i].0 && queries@[i].1 == (old(queries)@[i].1
                            || list_touched(kids, old(queries)@[i].0@, k + 1)) by {
                            let q = old(queries)@[i].0@;
                            assert(marked[i].0 == before[i].0);
                            assert(before[i].0 == old(queries)@[i].0);
                            assert(node_touched(child@, q) == (q.holds_of(child@)
                                || dir@.touched(q)));
                        }
                    }
                },
                Node::File(_) => {
                    proof {
                        assert(child@ is File);
                        assert(node_hits(child@, qs) == own);
                        assert forall|i: int| 0 <= i < queries@.len()
                            implies (#[trigger] queries@[i]).0
                            == old(queries)@[i].0 && queries@[i].1 == (old(queries)@[i].1
                            || list_touched(kids, old(queries)@[i].0@, k + 1)) by {
                            let q = old(queries)@[i].0@;
                            assert(before[i].0 == old(queries)@[i].0);
                            assert(node_touched(child@, q) == q.holds_of(child@));
                        }
                    }
                },
            }
            proof {
                assert(kids[k as int] == child@);
                assert(list_hits(kids, qs, k + 1) == list_hits(kids, qs, k as int) + node_hits(
                    kids[k as int],
                    qs,
                ));
            }
            k += 1;
        }
        nodes
    }
}

/// Some condition of `qs` is met by the file taken by itself.
pub open spec fn any_holds_of_file(qs: Seq<QueryView>, f: FileView) -> bool {
    exists|i: int| 0 <= i < qs.len() && (#[trigger] qs[i]).holds_of_file(f)
}

/// Some condition of `qs` is met by the directory taken by itself.
pub open spec fn any_holds_of_dir(qs: Seq<QueryView>, d: DirView) -> bool {
    exists|i: int| 0 <= i < qs.len() && (#[trigger] qs[i]).holds_of_dir(d)
}

impl File {
    /// Marks the queries whose condition this file by itself meets, and
    /// says whether there is one.
    pub fn match_queries(&self, queries: &mut Vec<(QueryParam, bool)>) -> (matched: bool)
        ensures
            matched == any_holds_of_file(conds(old(queries)@), self@),
            final(queries)@.len() == old(queries)@.len(),
            forall|i: int|
                0 <= i < old(queries)@.len() ==> (#[trigger] final(queries)@[i]).0
                    == old(queries)@[i].0
                    && final(queries)@[i].1 == (old(queries)@[i].1
                    || old(queries)@[i].0@.holds_of_file(self@)),
    {
        let mut query_matched = false;
        let n = queries.len();
        let mut i: usize = 0;
        while i < n
            invariant
                i <= n,
                n == queries@.len(),
                n == old(queries)@.len(),
                query_matched == exists|j: int|
                    0 <= j < i && (#[trigger] conds(old(queries)@)[j]).holds_of_file(self@),
                forall|j: int|
                    0 <= j < n ==> (#[trigger] queries@[j]).0 == old(queries)@[j].0
                        && queries@[j].1 == (
                    old(queries)@[j].1 || (j < i && old(queries)@[j].0@.holds_of_file(self@))),
            decreases n - i,
        {
            if queries[i].0.match_file(self) {
                queries[i].1 = true;
                query_matched = true;
                assert(conds(old(queries)@)[i as int].holds_of_file(self@));
            }
            i += 1;
        }
        query_matched
    }
}

impl Dir {
    /// Marks the queries whose condition this directory by itself meets,
    /// and says whether there is one.
    pub fn match_queries(&self, queries: &mut Vec<(QueryParam, bool)>) -> (matched: bool)
        ensures
            matched == any_holds_of_dir(conds(old(queries)@), self@),
            final(queries)@.len() == old(queries)@.len(),
            forall|i: int|
                0 <= i < old(queries)@.len() ==> (#[trigger] final(queries)@[i]).0
                    == old(queries)@[i].0
                    && final(queries)@[i].1 == (old(queries)@[i].1
                    || old(queries)@[i].0@.holds_of_dir(self@)),
    {
        let mut query_matched = false;
        let n = queries.len();
        let mut i: usize = 0;
        while i < n
            invariant
                i <= n,
                n == queries@.len(),
                n == old(queries)@.len(),
                query_matched == exists|j: int|
                    0 <= j < i && (#[trigger] conds(old(queries)@)[j]).holds_of_dir(self@),
                forall|j: int|
                    0 <= j < n ==> (#[trigger] queries@[j]).0 == old(queries)@[j].0
                        && queries@[j].1 == (
                    old(queries)@[j].1 || (j < i && old(queries)@[j].0@.holds_of_dir(self@))),
            decreases n - i,
        {
            if queries[i].0.match_dir(self) {
                queries[i].1 = true;
                query_matched = true;
                assert(conds(old(queries)@)[i as int].holds_of_dir(self@));
            }
            i += 1;
        }
        query_matched
    }
}

/// The files found at and below `n`, each file taken by itself.
pub open spec fn node_file_hits(n: NodeView, qs: Seq<QueryView>) -> Seq<NodeView>
    decreases n, 0int,
{
    match n {
        NodeView::Dir(d) => list_file_hits(d.children, qs, d.children.len() as int),
        NodeView::File(f) => if any_holds_of_file(qs, f) {
            seq![n]
        } else {
            Seq::empty()
        },
    }
}

/// The files found at and below the first `k` nodes of `s`, in the
/// order of a depth-first walk.
pub open spec fn list_file_hits(s: Seq<NodeView>, qs: Seq<QueryView>, k: int) -> Seq<NodeView>
    decreases s, k,
{
    if k <= 0 || k > s.len() {
        Seq::empty()
    } else {
        list_file_hits(s, qs, k - 1) + node_file_hits(s[k - 1], qs)
    }
}

/// The condition is met by `n` taken by itself, if `n` is a file, or by
/// a file below `n`.
pub open spec fn node_file_touched(n: NodeView, q: QueryView) -> bool
    decreases n, 0int,
{
    match n {
        NodeView::Dir(d) => list_file_touched(d.children, q, d.children.len() as int),
        NodeView::File(f) => q.holds_of_file(f),
    }
}

/// The condition is met by a file at or below one of the first `k`
/// nodes of `s`.
pub open spec fn list_file_touched(s: Seq<NodeView>, q: QueryView, k: int) -> bool
    decreases s, k,
{
    if k <= 0 || k > s.len() {
        false
    } else {
        list_file_touched(s, q, k - 1) || node_file_touched(s[k - 1], q)
    }
}

impl Dir {
    /// Searches the tree below this directory for files only, each file
    /// taken by itself: a name must be the whole name of the file.
    /// Returns the files that meet one of the conditions, in the order
    /// of a depth-first walk, and marks the queries whose condition a
    /// file has met.
    pub fn query_files<'a>(&'a self, queries: &mut Vec<(QueryParam,
        bool)>) -> (nodes: Vec<&'a Node>)
        ensures
            node_views(nodes@) == list_file_hits(
                self@.children,
                conds(old(queries)@),
                self@.children.len() as int,
            ),
            final(queries)@.len() == old(queries)@.len(),
            forall|i: int|
                0 <= i < old(queries)@.len() ==> (#[trigger] final(queries)@[i]).0
                    == old(queries)@[i].0
                    && final(queries)@[i].1 == (old(queries)@[i].1 || list_file_touched(
                    self@.children,
                    old(queries)@[i].0@,
                    self@.children.len() as int,
                )),
        decreases self,
    {
        let ghost qs = conds(queries@);
        let ghost kids = self@.children;
        let mut nodes: Vec<&'a Node> = Vec::new();
        let n = self.children.len();
        let mut k: usize = 0;
        proof {
            lemma_dir_view(self);
        }
        while k < n
            invariant
                k <= n,
                n == self.children.len(),
                kids == self@.children,
                n == kids.len(),
                forall|i: int| 0 <= i < n ==> #[trigger] kids[i] == self.children[i]@,
                qs == conds(old(queries)@),
                queries@.len() == old(queries)@.len(),
                node_views(nodes@) == list_file_hits(kids, qs, k as int),
                forall|i: int|
                    0 <= i < queries@.len() ==> (#[trigger] queries@[i]).0 == old(queries)@[i].0
                        && queries@[i].1 == (old(queries)@[i].1 || list_file_touched(
                        kids,
                        old(queries)@[i].0@,
                        k as int,
                    )),
            decreases n - k,
        {
            let child = &self.children[k];
            let ghost before = queries@;
            let ghost found = nodes@;
            assert(conds(before) =~= qs);
            assert(kids[k as int] == child@);
            match child {
                Node::Dir(dir) => {
                    let mut below = dir.query_files(queries);
                    let ghost low = below@;
                    nodes.append(&mut below);
                    proof {
                        assert(child@ == NodeView::Dir(dir@));
                        assert(node_views(nodes@) =~= node_views(found) + node_views(low));
                        assert(node_file_hits(child@, qs) == list_file_hits(
                            dir@.children,
                            qs,
                            dir@.children.len() as int,
                        ));
                        assert(list_file_hits(kids, qs, k + 1) == list_file_hits(kids, qs, k as int)
                            + node_file_hits(kids[k as int], qs));
                        assert forall|i: int| 0 <= i < queries@.len()
                            implies (#[trigger] queries@[i]).0
                            == old(queries)@[i].0 && queries@[i].1 == (old(queries)@[i].1
                            || list_file_touched(kids, old(queries)@[i].0@, k + 1)) by {
                            let q = old(queries)@[i].0@;
                            assert(before[i].0 == old(queries)@[i].0);
                            assert(node_file_touched(child@, q) == list_file_touched(
                                dir@.children,
                                q,
                                dir@.children.len() as int,
                            ));
                            assert(list_file_touched(kids, q, k + 1) == (list_file_touched(
                                kids,
                                q,
                                k as int,
                            ) || node_file_touched(kids[k as int], q)));
                        }
                    }
                },
                Node::File(f) => {
                    if f.match_queries(queries) {
                        nodes.push(child);
                    }
                    proof {
                        assert(child@ == NodeView::File(f@));
                        let own = if any_holds_of_file(qs, f@) {
                            seq![child@]
                        } else {
                            Seq::<NodeView>::empty()
                        };
                        assert(node_views(nodes@) =~= node_views(found) + own);
                        assert(node_file_hits(child@, qs) == own);
                        assert(list_file_hits(kids, qs, k + 1) == list_file_hits(kids, qs, k as int)
                            + node_file_hits(kids[k as int], qs));
                        assert forall|i: int| 0 <= i < queries@.len()
                            implies (#[trigger] queries@[i]).0
                            == old(queries)@[i].0 && queries@[i].1 == (old(queries)@[i].1
                            || list_file_touched(kids, old(queries)@[i].0@, k + 1)) by {
                            let q = old(queries)@[i].0@;
                            assert(before[i].0 == old(queries)@[i].0);
                            assert(node_file_touched(child@, q) == q.holds_of_file(f@));
                            assert(list_file_touched(kids, q, k + 1) == (list_file_touched(
                                kids,
                                q,
                                k as int,
                            ) || node_file_touched(kids[k as int], q)));
                        }
                    }
                },
            }
            k += 1;
        }
        nodes
    }
}

} // verus!
