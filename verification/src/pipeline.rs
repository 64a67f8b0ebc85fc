//! Materialization of payload entries into the modelled output tree.
//!
//! Each entry is classified by its mode bits, its name is normalized onto
//! a relative path, the parent-directory chain is ensured, and then the
//! entry is materialized: directories are created idempotently, regular
//! files are written with exactly `min(declared size, available content)`
//! bytes, and every other kind of entry is skipped.

use vstd::prelude::*;
use crate::filetype::{spec_classify, FileType};
use crate::fstree::{
    spec_ensure_dir, spec_lookup, spec_write_file, FsError, FsTree, NodeView,
};
use crate::paths::{dotdot_at, has_dotdot, spec_normalize, spec_safe_path};

verus! {

/// One payload entry, with the content bytes its stream yielded.
///
/// `content` holds the bytes actually available, which may be fewer than
/// the declared `size` when the stream ended early.
#[derive(Clone, Debug, PartialEq, Eq)]
pub struct PayloadEntry {
    pub name: String,
    pub size: u64,
    pub mode: u32,
    pub content: Vec<u8>,
}

/// Mathematical value of a `PayloadEntry`.
pub struct EntryV {
    pub name: Seq<char>,
    pub size: u64,
    pub mode: u32,
    pub content: Seq<u8>,
}

impl View for PayloadEntry {
    type V = EntryV;

    open spec fn view(&self) -> EntryV {
        EntryV { name: self.name@, size: self.size, mode: self.mode, content: self.content@ }
    }
}

/// Mathematical value of an `FsError`.
pub enum FsErrorView {
    OccupiedByFile(Seq<char>),
    OccupiedByDir(Seq<char>),
}

impl View for FsError {
    type V = FsErrorView;

    open spec fn view(&self) -> FsErrorView {
        match self {
            FsError::OccupiedByFile(p) => FsErrorView::OccupiedByFile(p@),
            FsError::OccupiedByDir(p) => FsErrorView::OccupiedByDir(p@),
        }
    }
}

/// What ensuring the parent chain of `p` does, having handled the slash
/// positions below `n`: the tree after creating each proper prefix of `p`
/// that ends at a slash, and the first prefix refused (because a file
/// stands there), if any.
pub open spec fn spec_ensure_parents(
    t: Seq<(Seq<char>, NodeView)>,
    p: Seq<char>,
    n: int,
) -> (Seq<(Seq<char>, NodeView)>, Option<Seq<char>>)
    decreases n,
{
    if n <= 1 {
        (t, None)
    } else {
        let (t1, err) = spec_ensure_parents(t, p, n - 1);
        if err is Some {
            (t1, err)
        } else if p[n - 1] == '/' {
            match spec_ensure_dir(t1, p.take(n - 1)) {
                Ok(t2) => (t2, None),
                Err(()) => (t1, Some(p.take(n - 1))),
            }
        } else {
            (t1, None)
        }
    }
}

/// What materializing one entry does: the tree afterwards, the number of
/// file bytes written, and the conflict that stopped the entry, if any.
pub open spec fn spec_apply_entry(
    t: Seq<(Seq<char>, NodeView)>,
    e: EntryV,
    root: Seq<char>,
) -> (Seq<(Seq<char>, NodeView)>, int, Option<FsErrorView>) {
    match spec_normalize(e.name, root) {
        None => (t, 0, None),
        Some(p) => {
            let (t1, perr) = spec_ensure_parents(t, p, p.len() as int);
            if perr is Some {
                (t1, 0, Some(FsErrorView::OccupiedByFile(perr->Some_0)))
            } else {
                match spec_classify(e.mode) {
                    FileType::Directory => match spec_ensure_dir(t1, p) {
                        Ok(t2) => (t2, 0, None),
                        Err(()) => (t1, 0, Some(FsErrorView::OccupiedByFile(p))),
                    },
                    FileType::Regular => if e.size > 0 {
                        let bytes = if e.content.len() <= e.size {
                            e.content
                        } else {
                            e.content.take(e.size as int)
                        };
                        match spec_write_file(t1, p, bytes) {
                            Ok(t2) => (t2, bytes.len() as int, None),
                            Err(()) => (t1, 0, Some(FsErrorView::OccupiedByDir(p))),
                        }
                    } else {
                        (t1, 0, None)
                    },
                    _ => (t1, 0, None),
                }
            }
        },
    }
}

/// What materializing a sequence of entries does, stopping at the first
/// conflict: the tree afterwards, the total file bytes written, and the
/// conflict, if any.
pub open spec fn spec_apply_entries(
    t: Seq<(Seq<char>, NodeView)>,
    es: Seq<EntryV>,
    root: Seq<char>,
) -> (Seq<(Seq<char>, NodeView)>, int, Option<FsErrorView>)
    decreases es.len(),
{
    if es.len() == 0 {
        (t, 0, None)
    } else {
        let (t1, w1, e1) = spec_apply_entry(t, es[0], root);
        if e1 is Some {
            (t1, w1, e1)
        } else {
            let (t2, w2, e2) = spec_apply_entries(t1, es.drop_first(), root);
            (t2, w1 + w2, e2)
        }
    }
}

/// What materializing a sequence of entries does when each conflict is
/// absorbed: every entry is attempted, from the tree the previous
/// attempt left; the results are the final tree, the total file bytes
/// written, and how many entries hit a conflict and were skipped.
pub open spec fn spec_apply_all(
    t: Seq<(Seq<char>, NodeView)>,
    es: Seq<EntryV>,
    root: Seq<char>,
) -> (Seq<(Seq<char>, NodeView)>, int, int)
    decreases es.len(),
{
    if es.len() == 0 {
        (t, 0, 0)
    } else {
        let (t1, w1, e1) = spec_apply_entry(t, es[0], root);
        let (t2, w2, c2) = spec_apply_all(t1, es.drop_first(), root);
        (t2, w1 + w2, (if e1 is Some { 1int } else { 0int }) + c2)
    }
}

/// Create every proper prefix of `path` that ends at a slash as a
/// directory, in order of increasing length.
pub fn ensure_parents(tree: &mut FsTree, path: &str) -> (r: Result<(), FsError>)
    ensures
        ({
            let (tf, err) = spec_ensure_parents(old(tree)@, path@, path@.len() as int);
            &&& final (tree)@ == tf
            &&& match r {
                Ok(()) => err is None,
                Err(e) => err matches Some(q) && e@ == FsErrorView::OccupiedByFile(q),
            }
        }),
{
    let len = path.unicode_len();
    let ghost t0 = tree@;
    let mut i: usize = 1;
    while i < len
        invariant
            1 <= i <= len || (len <= 1 && i == 1),
            len == path@.len(),
            t0 == old(tree)@,
            spec_ensure_parents(t0, path@, i as int) == (tree@, None::<Seq<char>>),
        decreases len - i,
    {
        if path.get_char(i) == '/' {
            let prefix = path.substring_char(0, i);
            let ghost tcur = tree@;
            match tree.ensure_dir(prefix) {
                Ok(()) => {
                    proof {
                        assert(spec_ensure_parents(t0, path@, i + 1) == (
                            tree@,
                            None::<Seq<char>>,
                        ));
                    }
                },
                Err(e) => {
                    proof {
                        assert(spec_ensure_parents(t0, path@, i + 1) == (
                            tcur,
                            Some(path@.take(i as int)),
                        ));
                        lemma_parents_err_stable(t0, path@, i + 1, path@.len() as int);
                    }
                    return Err(e);
                },
            }
        } else {
            proof {
                assert(spec_ensure_parents(t0, path@, i + 1) == (tree@, None::<Seq<char>>));
            }
        }
        i = i + 1;
    }
    proof {
        if len <= 1 {
            assert(spec_ensure_parents(t0, path@, path@.len() as int) == (
                t0,
                None::<Seq<char>>,
            ));
        }
    }
    Ok(())
}

/// Once the parent walk has hit a conflict, walking further changes
/// nothing.
proof fn lemma_parents_err_stable(
    t: Seq<(Seq<char>, NodeView)>,
    p: Seq<char>,
    m: int,
    n: int,
)
    requires
        1 <= m <= n,
        spec_ensure_parents(t, p, m).1 is Some,
    ensures
        spec_ensure_parents(t, p, n) == spec_ensure_parents(t, p, m),
    decreases n - m,
{
    if n > m {
        lemma_parents_err_stable(t, p, m, n - 1);
    }
}

/// Materialize one payload entry into the tree, returning the number of
/// file bytes written, or the conflict that stopped it.
pub fn apply_entry(tree: &mut FsTree, entry: &PayloadEntry, root: &str) -> (r: Result<
    u64,
    FsError,
>)
    ensures
        ({
            let (tf, w, err) = spec_apply_entry(old(tree)@, entry@, root@);
            &&& final (tree)@ == tf
            &&& match r {
                Ok(n) => err is None && n == w,
                Err(e) => err == Some(e@),
            }
        }),
{
    match crate::paths::normalize(entry.name.as_str(), root) {
        None => Ok(0),
        Some(p) => {
            match ensure_parents(tree, p.as_str()) {
                Err(e) => Err(e),
                Ok(()) => {
                    match FileType::from_mode(entry.mode) {
                        FileType::Directory => match tree.ensure_dir(p.as_str()) {
                            Ok(()) => Ok(0),
                            Err(e) => Err(e),
                        },
                        FileType::Regular => {
                            if entry.size > 0 {
                                let mut bytes = vstd::slice::slice_to_vec(
                                    entry.content.as_slice(),
                                );
                                if (bytes.len() as u64) > entry.size {
                                    bytes.truncate(entry.size as usize);
                                }
                                let written = bytes.len() as u64;
                                match tree.write_file(p.as_str(), bytes) {
                                    Ok(()) => Ok(written),
                                    Err(e) => Err(e),
                                }
                            } else {
                                Ok(0)
                            }
                        },
                        _ => Ok(0),
                    }
                },
            }
        },
    }
}

/// A byte total, saturated at the largest `u64`.
pub open spec fn clamp_u64(w: int) -> int {
    if w > u64::MAX {
        u64::MAX as int
    } else {
        w
    }
}

/// Materialize a sequence of payload entries in order, stopping at the
/// first conflict; returns the total number of file bytes written,
/// saturating at `u64::MAX`.
pub fn apply_entries(tree: &mut FsTree, entries: &Vec<PayloadEntry>, root: &str) -> (r: Result<
    u64,
    FsError,
>)
    ensures
        ({
            let (tf, w, err) = spec_apply_entries(
                old(tree)@,
                entries@.map_values(|e: PayloadEntry| e@),
                root@,
            );
            &&& final (tree)@ == tf
            &&& match r {
                Ok(n) => err is None && n == clamp_u64(w),
                Err(e) => err == Some(e@),
            }
        }),
{
    let ghost es = entries@.map_values(|e: PayloadEntry| e@);
    let ghost t0 = tree@;
    let ghost target = spec_apply_entries(t0, es, root@);
    let mut total: u64 = 0;
    let ghost mut sum: int = 0;
    let mut i: usize = 0;
    proof {
        assert(es.skip(0) =~= es);
    }
    while i < entries.len()
        invariant
            i <= entries.len(),
            t0 == old(tree)@,
            es == entries@.map_values(|e: PayloadEntry| e@),
            es.len() == entries@.len(),
            target == spec_apply_entries(t0, es, root@),
            ({
                let (tf, w, err) = spec_apply_entries(tree@, es.skip(i as int), root@);
                target == (tf, sum + w, err)
            }),
            sum >= 0,
            total == clamp_u64(sum),
        decreases entries.len() - i,
    {
        let ghost rest = es.skip(i as int);
        proof {
            assert(rest[0] == es[i as int]);
            assert(rest.drop_first() =~= es.skip(i + 1));
        }
        match apply_entry(tree, &entries[i], root) {
            Ok(w) => {
                proof {
                    sum = sum + w;
                }
                if w > u64::MAX - total {
                    total = u64::MAX;
                } else {
                    total = total + w;
                }
            },
            Err(e) => {
                return Err(e);
            },
        }
        i = i + 1;
    }
    proof {
        assert(es.skip(es.len() as int) =~= Seq::<EntryV>::empty());
    }
    Ok(total)
}

/// A pushed record at `r` leaves the lookup of every other path alone.
proof fn lemma_lookup_push_other(
    t: Seq<(Seq<char>, NodeView)>,
    r: (Seq<char>, NodeView),
    q: Seq<char>,
)
    requires
        r.0 != q,
    ensures
        spec_lookup(t.push(r), q) == spec_lookup(t, q),
{
    assert(t.push(r).drop_last() =~= t);
}

/// A successful parent walk leaves a directory at every slash-ended
/// proper prefix of `p` that it visited.
proof fn lemma_parents_make_dirs(t: Seq<(Seq<char>, NodeView)>, p: Seq<char>, n: int)
    requires
        n <= p.len(),
        spec_ensure_parents(t, p, n).1 is None,
    ensures
        forall|j: int|
            1 <= j < n && p[j] == '/' ==> spec_lookup(
                spec_ensure_parents(t, p, n).0,
                #[trigger] p.take(j),
            ) == Some(NodeView::Dir),
    decreases n,
{
    if n > 1 {
        let (t1, err) = spec_ensure_parents(t, p, n - 1);
        assert(err is None) by {
            if err is Some {
                lemma_parents_err_stable(t, p, n - 1, n);
            }
        }
        lemma_parents_make_dirs(t, p, n - 1);
        let t2 = spec_ensure_parents(t, p, n).0;
        if p[n - 1] == '/' {
            match spec_lookup(t1, p.take(n - 1)) {
                Some(NodeView::Dir) => {
                    assert(t2 == t1);
                },
                None => {
                    assert(t2 == t1.push((p.take(n - 1), NodeView::Dir)));
                    assert(t2.last() == (p.take(n - 1), NodeView::Dir));
                    assert forall|j: int| 1 <= j < n - 1 && p[j] == '/' implies spec_lookup(
                        t2,
                        #[trigger] p.take(j),
                    ) == Some(NodeView::Dir) by {
                        assert(p.take(j).len() == j);
                        assert(p.take(n - 1).len() == n - 1);
                        lemma_lookup_push_other(t1, (p.take(n - 1), NodeView::Dir), p.take(j));
                    }
                },
                Some(NodeView::File(_)) => {},
            }
        }
    }
}

/// Walking the parent chain changes nothing when a directory already
/// stands at every slash-ended proper prefix of `p`.
proof fn lemma_parents_idempotent_on(u: Seq<(Seq<char>, NodeView)>, p: Seq<char>, n: int)
    requires
        n <= p.len(),
        forall|j: int|
            1 <= j < n && p[j] == '/' ==> spec_lookup(u, #[trigger] p.take(j)) == Some(
                NodeView::Dir,
            ),
    ensures
        spec_ensure_parents(u, p, n) == (u, None::<Seq<char>>),
    decreases n,
{
    if n > 1 {
        lemma_parents_idempotent_on(u, p, n - 1);
    }
}

/// A successfully materialized regular entry whose stream yielded at most
/// its declared size leaves a file holding exactly the yielded bytes, and
/// reports exactly that many bytes written. With a full-length stream this
/// is the round trip (reading the file back yields the entry's content);
/// with a shorter stream it is early truncation (the file holds just the
/// bytes that arrived). Applied to the later of two entries that collide
/// on one path, it also says the later entry's bytes stand (last write
/// wins).
pub proof fn lemma_regular_materializes_content(
    t: Seq<(Seq<char>, NodeView)>,
    e: EntryV,
    root: Seq<char>,
)
    requires
        spec_classify(e.mode) == FileType::Regular,
        e.size > 0,
        e.content.len() <= e.size,
        spec_normalize(e.name, root) is Some,
        spec_apply_entry(t, e, root).2 is None,
    ensures
        spec_lookup(spec_apply_entry(t, e, root).0, spec_normalize(e.name, root)->Some_0)
            == Some(NodeView::File(e.content)),
        spec_apply_entry(t, e, root).1 == e.content.len(),
{
    let p = spec_normalize(e.name, root)->Some_0;
    let (t1, perr) = spec_ensure_parents(t, p, p.len() as int);
    let t2 = spec_apply_entry(t, e, root).0;
    assert(t2 == t1.push((p, NodeView::File(e.content))));
    assert(t2.last() == (p, NodeView::File(e.content)));
}

/// Materializing the same directory entry twice never fails: the second
/// application leaves the tree unchanged, writes nothing, and reports no
/// conflict.
pub proof fn lemma_directory_entry_idempotent(
    t: Seq<(Seq<char>, NodeView)>,
    e: EntryV,
    root: Seq<char>,
)
    requires
        spec_classify(e.mode) == FileType::Directory,
        spec_apply_entry(t, e, root).2 is None,
    ensures
        spec_apply_entry(spec_apply_entry(t, e, root).0, e, root) == (
            spec_apply_entry(t, e, root).0,
            0int,
            None::<FsErrorView>,
        ),
{
    match spec_normalize(e.name, root) {
        None => {},
        Some(p) => {
            let (t1, perr) = spec_ensure_parents(t, p, p.len() as int);
            let t2 = spec_apply_entry(t, e, root).0;
            lemma_parents_make_dirs(t, p, p.len() as int);
            match spec_lookup(t1, p) {
                Some(NodeView::Dir) => {
                    assert(t2 == t1);
                },
                None => {
                    assert(t2 == t1.push((p, NodeView::Dir)));
                    assert(t2.last() == (p, NodeView::Dir));
                    assert forall|j: int| 1 <= j < p.len() && p[j] == '/' implies spec_lookup(
                        t2,
                        #[trigger] p.take(j),
                    ) == Some(NodeView::Dir) by {
                        assert(p.take(j).len() == j);
                        lemma_lookup_push_other(t1, (p, NodeView::Dir), p.take(j));
                    }
                },
                Some(NodeView::File(_)) => {},
            }
            lemma_parents_idempotent_on(t2, p, p.len() as int);
            assert(spec_lookup(t2, p) == Some(NodeView::Dir));
        },
    }
}


/// The bytes a regular entry leaves in its file: its content, cut to its
/// declared size.
pub open spec fn spec_entry_bytes(e: EntryV) -> Seq<u8> {
    if e.content.len() <= e.size {
        e.content
    } else {
        e.content.take(e.size as int)
    }
}

/// Entry `e` writes a regular file at relative path `p`.
pub open spec fn spec_writes_file_at(e: EntryV, root: Seq<char>, p: Seq<char>) -> bool {
    &&& spec_normalize(e.name, root) == Some(p)
    &&& spec_classify(e.mode) == FileType::Regular
    &&& e.size > 0
}

/// The bytes of the last entry of `es` that writes a file at `p`, if any
/// entry does.
pub open spec fn spec_written_content(es: Seq<EntryV>, root: Seq<char>, p: Seq<char>) -> Option<
    Seq<u8>,
>
    decreases es.len(),
{
    if es.len() == 0 {
        None
    } else {
        match spec_written_content(es.drop_first(), root, p) {
            Some(c) => Some(c),
            None => if spec_writes_file_at(es[0], root, p) {
                Some(spec_entry_bytes(es[0]))
            } else {
                None
            },
        }
    }
}

/// What a successful `ensure_dir` leaves at each path.
proof fn lemma_ensure_dir_effect(
    t: Seq<(Seq<char>, NodeView)>,
    target: Seq<char>,
    q: Seq<char>,
)
    requires
        spec_ensure_dir(t, target) is Ok,
    ensures
        spec_lookup(spec_ensure_dir(t, target)->Ok_0, q) == if q == target {
            Some(NodeView::Dir)
        } else {
            spec_lookup(t, q)
        },
{
    let t1 = spec_ensure_dir(t, target)->Ok_0;
    match spec_lookup(t, target) {
        Some(n) => {},
        None => {
            assert(t1.last() == (target, NodeView::Dir));
            if q != target {
                lemma_lookup_push_other(t, (target, NodeView::Dir), q);
            }
        },
    }
}

/// What a successful `write_file` leaves at each path.
proof fn lemma_write_file_effect(
    t: Seq<(Seq<char>, NodeView)>,
    target: Seq<char>,
    c: Seq<u8>,
    q: Seq<char>,
)
    requires
        spec_write_file(t, target, c) is Ok,
    ensures
        spec_lookup(spec_write_file(t, target, c)->Ok_0, q) == if q == target {
            Some(NodeView::File(c))
        } else {
            spec_lookup(t, q)
        },
{
    let t1 = spec_write_file(t, target, c)->Ok_0;
    assert(t1.last() == (target, NodeView::File(c)));
    if q != target {
        lemma_lookup_push_other(t, (target, NodeView::File(c)), q);
    }
}

/// A successful parent walk only creates directories: at each path it
/// leaves either what stood there or a directory, keeping every file and
/// every directory in place.
proof fn lemma_parents_effect(t: Seq<(Seq<char>, NodeView)>, p: Seq<char>, n: int, q: Seq<char>)
    requires
        spec_ensure_parents(t, p, n).1 is None,
    ensures
        spec_lookup(spec_ensure_parents(t, p, n).0, q) == spec_lookup(t, q) || spec_lookup(
            spec_ensure_parents(t, p, n).0,
            q,
        ) == Some(NodeView::Dir),
        spec_lookup(t, q) matches Some(NodeView::File(_)) ==> spec_lookup(
            spec_ensure_parents(t, p, n).0,
            q,
        ) == spec_lookup(t, q),
        spec_lookup(t, q) == Some(NodeView::Dir) ==> spec_lookup(
            spec_ensure_parents(t, p, n).0,
            q,
        ) == Some(NodeView::Dir),
    decreases n,
{
    if n > 1 {
        let (t1, err) = spec_ensure_parents(t, p, n - 1);
        assert(err is None) by {
            if err is Some {
                lemma_parents_err_stable(t, p, n - 1, n);
            }
        }
        lemma_parents_effect(t, p, n - 1, q);
        if p[n - 1] == '/' {
            lemma_ensure_dir_effect(t1, p.take(n - 1), q);
        }
    }
}


/// What a successfully materialized entry leaves at each path: the file
/// it writes, directories it creates, and everything else untouched —
/// in particular every file it does not write, and every directory, stay.
proof fn lemma_entry_effect(t: Seq<(Seq<char>, NodeView)>, e: EntryV, root: Seq<char>, q: Seq<char>)
    requires
        spec_apply_entry(t, e, root).2 is None,
    ensures
        spec_writes_file_at(e, root, q) ==> spec_lookup(spec_apply_entry(t, e, root).0, q) == Some(
            NodeView::File(spec_entry_bytes(e)),
        ),
        spec_lookup(t, q) matches Some(NodeView::File(_)) && !spec_writes_file_at(e, root, q)
            ==> spec_lookup(spec_apply_entry(t, e, root).0, q) == spec_lookup(t, q),
        spec_lookup(t, q) == Some(NodeView::Dir) ==> spec_lookup(spec_apply_entry(t, e, root).0, q)
            == Some(NodeView::Dir),
{
    let t2 = spec_apply_entry(t, e, root).0;
    match spec_normalize(e.name, root) {
        None => {},
        Some(p) => {
            let (t1, perr) = spec_ensure_parents(t, p, p.len() as int);
            lemma_parents_effect(t, p, p.len() as int, q);
            match spec_classify(e.mode) {
                FileType::Directory => {
                    lemma_ensure_dir_effect(t1, p, q);
                },
                FileType::Regular => {
                    if e.size > 0 {
                        lemma_write_file_effect(t1, p, spec_entry_bytes(e), q);
                        if q == p {
                            assert(spec_lookup(t2, q) == Some(
                                NodeView::File(spec_entry_bytes(e)),
                            ));
                        }
                    }
                },
                _ => {},
            }
        },
    }
}

/// What a successful run of entries leaves at each path: the last file
/// written there, every untouched file, and every directory.
proof fn lemma_entries_effect(
    t: Seq<(Seq<char>, NodeView)>,
    es: Seq<EntryV>,
    root: Seq<char>,
    q: Seq<char>,
)
    requires
        spec_apply_entries(t, es, root).2 is None,
    ensures
        spec_written_content(es, root, q) matches Some(c) ==> spec_lookup(
            spec_apply_entries(t, es, root).0,
            q,
        ) == Some(NodeView::File(c)),
        spec_written_content(es, root, q) is None && (spec_lookup(t, q) matches Some(
            NodeView::File(_),
        )) ==> spec_lookup(spec_apply_entries(t, es, root).0, q) == spec_lookup(t, q),
        spec_lookup(t, q) == Some(NodeView::Dir) ==> spec_lookup(
            spec_apply_entries(t, es, root).0,
            q,
        ) == Some(NodeView::Dir),
    decreases es.len(),
{
    if es.len() > 0 {
        let e = es[0];
        let rest = es.drop_first();
        let (t1, w1, e1) = spec_apply_entry(t, e, root);
        lemma_entry_effect(t, e, root, q);
        lemma_entries_effect(t1, rest, root, q);
    }
}


/// Two optional nodes are of the same kind: both absent, both
/// directories, or both regular files (of possibly different content).
pub open spec fn same_kind(a: Option<NodeView>, b: Option<NodeView>) -> bool {
    match a {
        Option::None => b is None,
        Option::Some(NodeView::Dir) => b == Some(NodeView::Dir),
        Option::Some(NodeView::File(_)) => b matches Some(NodeView::File(_)),
    }
}

/// Replaying a successful run of entries onto a tree that has the same
/// node kinds as the run's final tree `tf` — and the same nodes wherever
/// the entries write nothing — succeeds and lands on `tf` again, path for
/// path.
proof fn lemma_replay(
    t_run: Seq<(Seq<char>, NodeView)>,
    v: Seq<(Seq<char>, NodeView)>,
    es: Seq<EntryV>,
    root: Seq<char>,
    tf: Seq<(Seq<char>, NodeView)>,
)
    requires
        spec_apply_entries(t_run, es, root).2 is None,
        spec_apply_entries(t_run, es, root).0 == tf,
        forall|q: Seq<char>| same_kind(#[trigger] spec_lookup(v, q), spec_lookup(tf, q)),
        forall|q: Seq<char>|
            spec_written_content(es, root, q) is None ==> #[trigger] spec_lookup(v, q)
                == spec_lookup(tf, q),
    ensures
        spec_apply_entries(v, es, root).2 is None,
        forall|q: Seq<char>|
            #[trigger] spec_lookup(spec_apply_entries(v, es, root).0, q) == spec_lookup(tf, q),
    decreases es.len(),
{
    if es.len() == 0 {
        assert forall|q: Seq<char>|
            #[trigger] spec_lookup(spec_apply_entries(v, es, root).0, q) == spec_lookup(
                tf,
                q,
            ) by {
            assert(spec_lookup(v, q) == spec_lookup(tf, q));
        }
        return ;
    }
    let e = es[0];
    let rest = es.drop_first();
    let run1 = spec_apply_entry(t_run, e, root);
    let t1 = run1.0;
    assert(spec_apply_entries(t1, rest, root).2 is None);
    assert(spec_apply_entries(t1, rest, root).0 == tf);
    match spec_normalize(e.name, root) {
        None => {
            assert(spec_apply_entry(v, e, root) == (v, 0int, None::<FsErrorView>));
            assert forall|q: Seq<char>|
                spec_written_content(rest, root, q) is None implies #[trigger] spec_lookup(v, q)
                == spec_lookup(tf, q) by {
                assert(!spec_writes_file_at(e, root, q));
                assert(spec_written_content(es, root, q) is None);
            }
            lemma_replay(t1, v, rest, root, tf);
        },
        Some(p) => {
            let n = p.len() as int;
            let (ta, perr) = spec_ensure_parents(t_run, p, n);
            assert(perr is None);
            lemma_parents_make_dirs(t_run, p, n);
            // Every parent prefix is a directory in `tf`, hence exactly a
            // directory in `v`.
            assert forall|j: int| 1 <= j < n && p[j] == '/' implies spec_lookup(
                v,
                #[trigger] p.take(j),
            ) == Some(NodeView::Dir) by {
                assert(p.take(j).len() == j);
                assert(spec_lookup(ta, p.take(j)) == Some(NodeView::Dir));
                match spec_classify(e.mode) {
                    FileType::Directory => {
                        lemma_ensure_dir_effect(ta, p, p.take(j));
                    },
                    FileType::Regular => {
                        if e.size > 0 {
                            lemma_write_file_effect(ta, p, spec_entry_bytes(e), p.take(j));
                        }
                    },
                    _ => {},
                }
                assert(spec_lookup(t1, p.take(j)) == Some(NodeView::Dir));
                lemma_entries_effect(t1, rest, root, p.take(j));
                assert(spec_lookup(tf, p.take(j)) == Some(NodeView::Dir));
                assert(same_kind(spec_lookup(v, p.take(j)), spec_lookup(tf, p.take(j))));
            }
            lemma_parents_idempotent_on(v, p, n);
            match spec_classify(e.mode) {
                FileType::Directory => {
                    lemma_ensure_dir_effect(ta, p, p);
                    assert(spec_lookup(t1, p) == Some(NodeView::Dir));
                    lemma_entries_effect(t1, rest, root, p);
                    assert(spec_lookup(tf, p) == Some(NodeView::Dir));
                    assert(spec_lookup(v, p) == Some(NodeView::Dir));
                    assert(spec_apply_entry(v, e, root) == (v, 0int, None::<FsErrorView>));
                    assert forall|q: Seq<char>|
                        spec_written_content(rest, root, q) is None implies #[trigger] spec_lookup(
                        v,
                        q,
                    ) == spec_lookup(tf, q) by {
                        assert(!spec_writes_file_at(e, root, q));
                        assert(spec_written_content(es, root, q) is None);
                    }
                    lemma_replay(t1, v, rest, root, tf);
                },
                FileType::Regular => {
                    if e.size > 0 {
                        let bytes = spec_entry_bytes(e);
                        lemma_write_file_effect(ta, p, bytes, p);
                        assert(spec_lookup(t1, p) == Some(NodeView::File(bytes)));
                        lemma_entries_effect(t1, rest, root, p);
                        assert(spec_lookup(tf, p) matches Some(NodeView::File(_)));
                        assert(!(spec_lookup(v, p) matches Some(NodeView::Dir)));
                        assert(spec_write_file(v, p, bytes) is Ok);
                        let v1 = spec_write_file(v, p, bytes)->Ok_0;
                        assert(spec_apply_entry(v, e, root) == (
                            v1,
                            bytes.len() as int,
                            None::<FsErrorView>,
                        ));
                        assert forall|q: Seq<char>|
                            same_kind(#[trigger] spec_lookup(v1, q), spec_lookup(tf, q)) by {
                            lemma_write_file_effect(v, p, bytes, q);
                            if q != p {
                                assert(spec_lookup(v1, q) == spec_lookup(v, q));
                            }
                        }
                        assert forall|q: Seq<char>|
                            spec_written_content(rest, root, q) is None
                                implies #[trigger] spec_lookup(v1, q) == spec_lookup(tf, q) by {
                            lemma_write_file_effect(v, p, bytes, q);
                            if q == p {
                                assert(spec_lookup(tf, p) == Some(NodeView::File(bytes)));
                            } else {
                                assert(!spec_writes_file_at(e, root, q));
                                assert(spec_written_content(es, root, q) is None);
                                assert(spec_lookup(v, q) == spec_lookup(tf, q));
                            }
                        }
                        lemma_replay(t1, v1, rest, root, tf);
                    } else {
                        assert(spec_apply_entry(v, e, root) == (v, 0int, None::<FsErrorView>));
                        assert forall|q: Seq<char>|
                            spec_written_content(rest, root, q) is None
                                implies #[trigger] spec_lookup(v, q) == spec_lookup(tf, q) by {
                            assert(!spec_writes_file_at(e, root, q));
                            assert(spec_written_content(es, root, q) is None);
                        }
                        lemma_replay(t1, v, rest, root, tf);
                    }
                },
                _ => {
                    assert(spec_apply_entry(v, e, root) == (v, 0int, None::<FsErrorView>));
                    assert forall|q: Seq<char>|
                        spec_written_content(rest, root, q) is None implies #[trigger] spec_lookup(
                        v,
                        q,
                    ) == spec_lookup(tf, q) by {
                        assert(!spec_writes_file_at(e, root, q));
                        assert(spec_written_content(es, root, q) is None);
                    }
                    lemma_replay(t1, v, rest, root, tf);
                },
            }
        },
    }
}

/// Running the same extraction a second time, over the tree the first run
/// produced, succeeds and changes nothing: at every path the replayed
/// tree holds exactly what the first run left there.
pub proof fn lemma_extraction_replay_idempotent(es: Seq<EntryV>, root: Seq<char>)
    requires
        spec_apply_entries(Seq::empty(), es, root).2 is None,
    ensures
        spec_apply_entries(spec_apply_entries(Seq::empty(), es, root).0, es, root).2 is None,
        forall|q: Seq<char>|
            #[trigger] spec_lookup(
                spec_apply_entries(spec_apply_entries(Seq::empty(), es, root).0, es, root).0,
                q,
            ) == spec_lookup(spec_apply_entries(Seq::empty(), es, root).0, q),
{
    let tf = spec_apply_entries(Seq::empty(), es, root).0;
    lemma_replay(Seq::empty(), tf, es, root, tf);
}

/// Every record of the tree stands at a safe relative path.
pub open spec fn spec_all_paths_safe(t: Seq<(Seq<char>, NodeView)>) -> bool {
    forall|i: int| 0 <= i < t.len() ==> spec_safe_path(#[trigger] t[i].0)
}

/// A prefix of a safe path that ends just before a slash is itself safe.
proof fn lemma_safe_prefix(p: Seq<char>, j: int)
    requires
        spec_safe_path(p),
        1 <= j < p.len(),
        p[j] == '/',
    ensures
        spec_safe_path(p.take(j)),
{
    assert(p.take(j)[0] == p[0]);
    assert(!has_dotdot(p.take(j))) by {
        if has_dotdot(p.take(j)) {
            let i = choose|i: int| dotdot_at(p.take(j), i);
            assert(dotdot_at(p, i));
            assert(false);
        }
    }
}

/// A parent walk over a safe path adds only safe paths, whether or not
/// it runs to completion.
proof fn lemma_parents_safe(t: Seq<(Seq<char>, NodeView)>, p: Seq<char>, n: int)
    requires
        spec_all_paths_safe(t),
        spec_safe_path(p),
        n <= p.len(),
    ensures
        spec_all_paths_safe(spec_ensure_parents(t, p, n).0),
    decreases n,
{
    if n > 1 {
        let (t1, err) = spec_ensure_parents(t, p, n - 1);
        lemma_parents_safe(t, p, n - 1);
        if err is None && p[n - 1] == '/' {
            match spec_lookup(t1, p.take(n - 1)) {
                None => {
                    lemma_safe_prefix(p, n - 1);
                    let t2 = t1.push((p.take(n - 1), NodeView::Dir));
                    assert forall|i: int| 0 <= i < t2.len() implies spec_safe_path(
                        #[trigger] t2[i].0,
                    ) by {
                        if i < t1.len() {
                            assert(t2[i] == t1[i]);
                        }
                    }
                },
                Some(_) => {},
            }
        }
    }
}

/// Materializing an entry adds only safe paths, whether or not it hits a
/// conflict: its normalized path is safe by construction, and so is
/// every parent prefix.
pub proof fn lemma_entry_safe(t: Seq<(Seq<char>, NodeView)>, e: EntryV, root: Seq<char>)
    requires
        spec_all_paths_safe(t),
    ensures
        spec_all_paths_safe(spec_apply_entry(t, e, root).0),
{
    match spec_normalize(e.name, root) {
        None => {},
        Some(p) => {
            let (t1, perr) = spec_ensure_parents(t, p, p.len() as int);
            lemma_parents_safe(t, p, p.len() as int);
            let target: Option<(Seq<char>, NodeView)> = match spec_classify(e.mode) {
                FileType::Directory => Some((p, NodeView::Dir)),
                FileType::Regular => if e.size > 0 {
                    Some((p, NodeView::File(spec_entry_bytes(e))))
                } else {
                    None
                },
                _ => None,
            };
            match target {
                None => {},
                Some(node) => {
                    let t2 = spec_apply_entry(t, e, root).0;
                    if t2 != t1 {
                        assert(t2 == t1.push(node));
                        assert forall|i: int| 0 <= i < t2.len() implies spec_safe_path(
                            #[trigger] t2[i].0,
                        ) by {
                            if i < t1.len() {
                                assert(t2[i] == t1[i]);
                            } else {
                                assert(t2[i] == node);
                            }
                        }
                    }
                },
            }
        },
    }
}

/// A run of entries adds only safe paths to the tree, conflicts
/// absorbed or not.
pub proof fn lemma_apply_all_safe(t: Seq<(Seq<char>, NodeView)>, es: Seq<EntryV>, root: Seq<char>)
    requires
        spec_all_paths_safe(t),
    ensures
        spec_all_paths_safe(spec_apply_all(t, es, root).0),
    decreases es.len(),
{
    if es.len() > 0 {
        lemma_entry_safe(t, es[0], root);
        lemma_apply_all_safe(spec_apply_entry(t, es[0], root).0, es.drop_first(), root);
    }
}

/// The absorbing fold writes no negative totals and counts no negative
/// conflicts.
pub proof fn lemma_apply_all_nonneg(t: Seq<(Seq<char>, NodeView)>, es: Seq<EntryV>, root: Seq<char>)
    ensures
        spec_apply_all(t, es, root).1 >= 0,
        spec_apply_all(t, es, root).2 >= 0,
    decreases es.len(),
{
    if es.len() > 0 {
        lemma_apply_all_nonneg(spec_apply_entry(t, es[0], root).0, es.drop_first(), root);
    }
}

/// A run in which no conflict was absorbed is exactly the strict run:
/// same tree, same byte total, no error.
pub proof fn lemma_all_conflict_free(t: Seq<(Seq<char>, NodeView)>, es: Seq<EntryV>, root: Seq<char>)
    requires
        spec_apply_all(t, es, root).2 == 0,
    ensures
        spec_apply_entries(t, es, root) == (
            spec_apply_all(t, es, root).0,
            spec_apply_all(t, es, root).1,
            None::<FsErrorView>,
        ),
    decreases es.len(),
{
    if es.len() > 0 {
        let (t1, w1, e1) = spec_apply_entry(t, es[0], root);
        lemma_apply_all_nonneg(t1, es.drop_first(), root);
        assert(e1 is None);
        lemma_all_conflict_free(t1, es.drop_first(), root);
    }
}

/// Attempting one more entry after an absorbing run appends that entry's
/// effect, byte count and conflict tally to the run's result.
pub(crate) proof fn lemma_apply_all_snoc(
    t: Seq<(Seq<char>, NodeView)>,
    es: Seq<EntryV>,
    x: EntryV,
    root: Seq<char>,
)
    ensures
        spec_apply_all(t, es.push(x), root) == ({
            let run = spec_apply_all(t, es, root);
            let step = spec_apply_entry(run.0, x, root);
            (
                step.0,
                run.1 + step.1,
                run.2 + (if step.2 is Some {
                    1int
                } else {
                    0int
                }),
            )
        }),
    decreases es.len(),
{
    if es.len() == 0 {
        assert(es.push(x)[0] == x);
        assert(es.push(x).drop_first() =~= Seq::<EntryV>::empty());
        let step = spec_apply_entry(t, x, root);
        assert(spec_apply_all(step.0, es.push(x).drop_first(), root) == (step.0, 0int, 0int));
        assert(spec_apply_all(t, es, root) == (t, 0int, 0int));
    } else {
        assert(es.push(x)[0] == es[0]);
        assert(es.push(x).drop_first() =~= es.drop_first().push(x));
        let first = spec_apply_entry(t, es[0], root);
        lemma_apply_all_snoc(first.0, es.drop_first(), x, root);
        let run1 = spec_apply_all(first.0, es.drop_first(), root);
        let step = spec_apply_entry(run1.0, x, root);
        let c1: int = if first.2 is Some {
            1int
        } else {
            0int
        };
        let cx: int = if step.2 is Some {
            1int
        } else {
            0int
        };
        assert(spec_apply_all(first.0, es.drop_first().push(x), root) == (
            step.0,
            run1.1 + step.1,
            run1.2 + cx,
        ));
        assert(spec_apply_all(t, es, root) == (run1.0, first.1 + run1.1, c1 + run1.2));
        assert(spec_apply_all(t, es.push(x), root) == (
            step.0,
            first.1 + (run1.1 + step.1),
            c1 + (run1.2 + cx),
        ));
    }
}

/// An absorbing run over concatenated entry sequences is the two runs
/// chained.
pub(crate) proof fn lemma_apply_all_concat(
    t: Seq<(Seq<char>, NodeView)>,
    a: Seq<EntryV>,
    b: Seq<EntryV>,
    root: Seq<char>,
)
    ensures
        spec_apply_all(t, a + b, root) == ({
            let run = spec_apply_all(t, a, root);
            let rest = spec_apply_all(run.0, b, root);
            (rest.0, run.1 + rest.1, run.2 + rest.2)
        }),
    decreases a.len(),
{
    if a.len() == 0 {
        assert(a + b =~= b);
        assert(spec_apply_all(t, a, root) == (t, 0int, 0int));
    } else {
        assert((a + b)[0] == a[0]);
        assert((a + b).drop_first() =~= a.drop_first() + b);
        let first = spec_apply_entry(t, a[0], root);
        lemma_apply_all_concat(first.0, a.drop_first(), b, root);
        let run1 = spec_apply_all(first.0, a.drop_first(), root);
        let rest1 = spec_apply_all(run1.0, b, root);
        let c1: int = if first.2 is Some {
            1int
        } else {
            0int
        };
        assert(spec_apply_all(first.0, a.drop_first() + b, root) == (
            rest1.0,
            run1.1 + rest1.1,
            run1.2 + rest1.2,
        ));
        assert(spec_apply_all(t, a, root) == (run1.0, first.1 + run1.1, c1 + run1.2));
        assert(spec_apply_all(t, a + b, root) == (
            rest1.0,
            first.1 + (run1.1 + rest1.1),
            c1 + (run1.2 + rest1.2),
        ));
    }
}


} // verus!
