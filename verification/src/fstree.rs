//! An in-memory model of the output directory tree.
//!
//! Materialized entries are recorded in order; a later record for a path
//! shadows an earlier one, so the tree read back through `spec_lookup`
//! has last-write-wins semantics, exactly as sequential writes to a real
//! directory tree do. Callers replay the records onto a real filesystem
//! in order.

use vstd::prelude::*;

verus! {

/// One materialized node: a directory, or a regular file with its bytes.
#[derive(Clone, Debug, PartialEq, Eq)]
pub enum Node {
    Dir,
    File(Vec<u8>),
}

/// Mathematical value of a `Node`.
pub enum NodeView {
    Dir,
    File(Seq<u8>),
}

impl View for Node {
    type V = NodeView;

    open spec fn view(&self) -> NodeView {
        match self {
            Node::Dir => NodeView::Dir,
            Node::File(c) => NodeView::File(c@),
        }
    }
}

/// One record of the tree: a relative path and the node put there.
#[derive(Clone, Debug, PartialEq, Eq)]
pub struct FsEntry {
    pub path: String,
    pub node: Node,
}

impl View for FsEntry {
    type V = (Seq<char>, NodeView);

    open spec fn view(&self) -> (Seq<char>, NodeView) {
        (self.path@, self.node@)
    }
}

/// The modelled output tree: the sequence of materialization records.
#[derive(Clone, Debug, PartialEq, Eq)]
pub struct FsTree {
    records: Vec<FsEntry>,
}

impl View for FsTree {
    type V = Seq<(Seq<char>, NodeView)>;

    closed spec fn view(&self) -> Seq<(Seq<char>, NodeView)> {
        self.records@.map_values(|e: FsEntry| e@)
    }
}

/// The node now standing at path `p`: the last record for `p`, if any.
pub open spec fn spec_lookup(t: Seq<(Seq<char>, NodeView)>, p: Seq<char>) -> Option<NodeView>
    decreases t.len(),
{
    if t.len() == 0 {
        None
    } else if t.last().0 == p {
        Some(t.last().1)
    } else {
        spec_lookup(t.drop_last(), p)
    }
}

/// What `ensure_dir` does: creating a directory is idempotent, and fails
/// exactly when a regular file already stands at the path.
pub open spec fn spec_ensure_dir(t: Seq<(Seq<char>, NodeView)>, p: Seq<char>) -> Result<
    Seq<(Seq<char>, NodeView)>,
    (),
> {
    match spec_lookup(t, p) {
        Some(NodeView::File(c)) => Err(()),
        Some(NodeView::Dir) => Ok(t),
        None => Ok(t.push((p, NodeView::Dir))),
    }
}

/// What `write_file` does: the new content shadows whatever file stood at
/// the path (last write wins), and fails exactly when a directory stands
/// there.
pub open spec fn spec_write_file(
    t: Seq<(Seq<char>, NodeView)>,
    p: Seq<char>,
    content: Seq<u8>,
) -> Result<Seq<(Seq<char>, NodeView)>, ()> {
    match spec_lookup(t, p) {
        Some(NodeView::Dir) => Err(()),
        _ => Ok(t.push((p, NodeView::File(content)))),
    }
}

/// Why a materialization step was refused: the path is already taken by a
/// node of the other kind.
#[derive(Clone, Debug, PartialEq, Eq)]
pub enum FsError {
    /// A directory was requested but a regular file stands at the path.
    OccupiedByFile(String),
    /// A regular file was requested but a directory stands at the path.
    OccupiedByDir(String),
}

impl FsTree {
    /// The empty tree.
    pub fn new() -> (t: FsTree)
        ensures
            t@ == Seq::<(Seq<char>, NodeView)>::empty(),
    {
        let t = FsTree { records: Vec::new() };
        proof {
            assert(t@ =~= Seq::<(Seq<char>, NodeView)>::empty());
        }
        t
    }

    /// Number of records.
    pub fn len(&self) -> (n: usize)
        ensures
            n == self@.len(),
    {
        self.records.len()
    }

    /// The `i`-th record, in materialization order.
    pub fn get(&self, i: usize) -> (e: &FsEntry)
        requires
            i < self@.len(),
        ensures
            e@ == self@[i as int],
    {
        &self.records[i]
    }

    /// Index of the last record for `path`, if any.
    fn find_last(&self, path: &str) -> (r: Option<usize>)
        ensures
            match r {
                None => spec_lookup(self@, path@) is None,
                Some(i) => i < self@.len() && self@[i as int].0 == path@ && spec_lookup(
                    self@,
                    path@,
                ) == Some(self@[i as int].1),
            },
    {
        let ghost t = self@;
        let mut res: Option<usize> = None;
        let mut i: usize = 0;
        while i < self.records.len()
            invariant
                i <= self.records.len(),
                t == self@,
                t.len() == self.records.len(),
                match res {
                    None => spec_lookup(t.take(i as int), path@) is None,
                    Some(k) => k < i && t[k as int].0 == path@ && spec_lookup(
                        t.take(i as int),
                        path@,
                    ) == Some(t[k as int].1),
                },
            decreases self.records.len() - i,
        {
            proof {
                assert(t.take(i + 1).drop_last() =~= t.take(i as int));
                assert(t.take(i + 1).last() == t[i as int]);
            }
            if crate::paths::str_eq(self.records[i].path.as_str(), path) {
                res = Some(i);
            }
            i = i + 1;
        }
        proof {
            assert(t.take(t.len() as int) =~= t);
        }
        res
    }

    /// Create a directory at `path`; succeeds if the path is free or
    /// already a directory, and refuses if a regular file stands there.
    pub fn ensure_dir(&mut self, path: &str) -> (r: Result<(), FsError>)
        ensures
            match r {
                Ok(()) => spec_ensure_dir(old(self)@, path@) == Ok::<_, ()>(final (self)@),
                Err(e) => {
                    &&& spec_ensure_dir(old(self)@, path@) is Err
                    &&& final (self)@ == old(self)@
                    &&& e matches FsError::OccupiedByFile(q) && q@ == path@
                },
            },
    {
        match self.find_last(path) {
            Some(i) => match &self.records[i].node {
                Node::Dir => Ok(()),
                Node::File(_) => Err(FsError::OccupiedByFile(path.to_owned())),
            },
            None => {
                let ghost before = self@;
                self.records.push(FsEntry { path: path.to_owned(), node: Node::Dir });
                proof {
                    assert(self@ =~= before.push((path@, NodeView::Dir)));
                }
                Ok(())
            },
        }
    }

    /// Put a regular file with `content` at `path`, shadowing any earlier
    /// file there; refuses if a directory stands at the path.
    pub fn write_file(&mut self, path: &str, content: Vec<u8>) -> (r: Result<(), FsError>)
        ensures
            match r {
                Ok(()) => spec_write_file(old(self)@, path@, content@) == Ok::<_, ()>(
                    final (self)@,
                ),
                Err(e) => {
                    &&& spec_write_file(old(self)@, path@, content@) is Err
                    &&& final (self)@ == old(self)@
                    &&& e matches FsError::OccupiedByDir(q) && q@ == path@
                },
            },
    {
        let is_dir = match self.find_last(path) {
            Some(i) => match &self.records[i].node {
                Node::Dir => true,
                Node::File(_) => false,
            },
            None => false,
        };
        if is_dir {
            Err(FsError::OccupiedByDir(path.to_owned()))
        } else {
            let ghost before = self@;
            let ghost c = content@;
            self.records.push(FsEntry { path: path.to_owned(), node: Node::File(content) });
            proof {
                assert(self@ =~= before.push((path@, NodeView::File(c))));
            }
            Ok(())
        }
    }

    /// The node standing at `path`, if any.
    pub fn node_at(&self, path: &str) -> (r: Option<&Node>)
        ensures
            match r {
                None => spec_lookup(self@, path@) is None,
                Some(n) => spec_lookup(self@, path@) == Some(n@),
            },
    {
        match self.find_last(path) {
            Some(i) => Some(&self.records[i].node),
            None => None,
        }
    }

    /// The bytes of the regular file standing at `path`, if one does.
    pub fn read_file(&self, path: &str) -> (r: Option<&Vec<u8>>)
        ensures
            match r {
                None => !(spec_lookup(self@, path@) matches Some(NodeView::File(_))),
                Some(c) => spec_lookup(self@, path@) == Some(NodeView::File(c@)),
            },
    {
        match self.node_at(path) {
            Some(Node::File(c)) => Some(c),
            _ => None,
        }
    }
}

/// Materializing the same directory twice never fails: a second
/// `ensure_dir` of a path returns the tree unchanged.
pub proof fn lemma_ensure_dir_idempotent(t: Seq<(Seq<char>, NodeView)>, p: Seq<char>)
    requires
        spec_ensure_dir(t, p) is Ok,
    ensures
        spec_ensure_dir(spec_ensure_dir(t, p)->Ok_0, p) == spec_ensure_dir(t, p),
{
    let t1 = spec_ensure_dir(t, p)->Ok_0;
    match spec_lookup(t, p) {
        Some(n) => {},
        None => {
            assert(t1.last() == (p, NodeView::Dir));
            assert(spec_lookup(t1, p) == Some(NodeView::Dir));
        },
    }
}

/// Last write wins: after two successful file writes to the same path,
/// the tree holds the second content.
pub proof fn lemma_write_file_last_wins(
    t: Seq<(Seq<char>, NodeView)>,
    p: Seq<char>,
    c1: Seq<u8>,
    c2: Seq<u8>,
)
    requires
        spec_write_file(t, p, c1) is Ok,
    ensures
        spec_write_file(spec_write_file(t, p, c1)->Ok_0, p, c2) is Ok,
        spec_lookup(spec_write_file(spec_write_file(t, p, c1)->Ok_0, p, c2)->Ok_0, p) == Some(
            NodeView::File(c2),
        ),
{
    let t1 = spec_write_file(t, p, c1)->Ok_0;
    assert(t1.last() == (p, NodeView::File(c1)));
    assert(spec_lookup(t1, p) == Some(NodeView::File(c1)));
    let t2 = spec_write_file(t1, p, c2)->Ok_0;
    assert(t2.last() == (p, NodeView::File(c2)));
    assert(spec_lookup(t2, p) == Some(NodeView::File(c2)));
}

} // verus!
