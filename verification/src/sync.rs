//! File sets, sync operations, and the diff engine.

use vstd::prelude::*;
use crate::text::str_eq;

verus! {

/// Metadata kept for one file: its content fingerprint.
///
/// For a local file this is the lowercase hex digest of its content;
/// for a remote object it is the entity tag the store reported.
#[derive(Debug, Clone)]
pub struct FileInfo {
    pub etag: String,
}

/// A mapping from relative path to file fingerprint, with unique keys.
///
/// Modeled as a `Map<Seq<char>, Seq<char>>` from path to fingerprint.
pub struct FileSet {
    entries: Vec<(String, FileInfo)>,
}

impl FileSet {
    /// The paths held, in insertion order.
    pub closed spec fn keys(&self) -> Seq<Seq<char>> {
        self.entries@.map(|i: int, e: (String, FileInfo)| e.0@)
    }

    /// The fingerprints held, in the same order as `keys`.
    pub closed spec fn vals(&self) -> Seq<Seq<char>> {
        self.entries@.map(|i: int, e: (String, FileInfo)| e.1.etag@)
    }

    /// Well-formed: no relative path appears twice.
    pub closed spec fn wf(&self) -> bool {
        self.keys().no_duplicates()
    }

    pub fn new() -> (r: FileSet)
        ensures
            r.wf(),
            r@ == Map::<Seq<char>, Seq<char>>::empty(),
    {
        let r = FileSet { entries: Vec::new() };
        proof {
            assert(r.keys() =~= Seq::<Seq<char>>::empty());
            assert(r@ =~= Map::<Seq<char>, Seq<char>>::empty());
        }
        r
    }

    /// Number of entries; equals the cardinality of the map's domain.
    pub fn len(&self) -> (n: usize)
        requires
            self.wf(),
        ensures
            n == self@.dom().len(),
    {
        proof {
            self.lemma_dom();
            self.keys().unique_seq_to_set();
        }
        self.entries.len()
    }

    /// A file set holds finitely many paths.
    pub proof fn lemma_finite_dom(&self)
        ensures
            self@.dom().finite(),
    {
        self.lemma_dom();
        vstd::seq_lib::seq_to_set_is_finite::<Seq<char>>(self.keys());
    }

    /// The domain of the view is exactly the set of keys held.
    proof fn lemma_dom(&self)
        ensures
            self@.dom() == self.keys().to_set(),
            forall|p: Seq<char>| self@.contains_key(p) <==> self.keys().contains(p),
    {
        assert(self@.dom() =~= self.keys().to_set());
    }

    /// The view takes each held key to the fingerprint stored beside it.
    proof fn lemma_at(&self, i: int)
        requires
            self.wf(),
            0 <= i < self.keys().len(),
        ensures
            self@.contains_key(self.keys()[i]),
            self@[self.keys()[i]] == self.vals()[i],
    {
        let p = self.keys()[i];
        assert(self.keys().contains(p));
        let j = self.keys().index_of(p);
        assert(0 <= j < self.keys().len() && self.keys()[j] == p);
        assert(j == i);
    }

    /// Effect of removing the entry at `i` on the view.
    proof fn lemma_removed(self, other: FileSet, i: int)
        requires
            self.wf(),
            0 <= i < self.entries@.len(),
            other.entries@ == self.entries@.remove(i),
        ensures
            other.wf(),
            !other.keys().contains(self.keys()[i]),
            other@ == self@.remove(self.keys()[i]),
    {
        assert(other.keys() =~= self.keys().remove(i));
        assert(other.vals() =~= self.vals().remove(i));
        assert forall|p: Seq<char>| #[trigger] other.keys().contains(p) implies self.keys()
            .contains(p) && p != self.keys()[i] by {
            let j = choose|j: int| 0 <= j < other.keys().len() && other.keys()[j] == p;
            if j < i {
                assert(self.keys()[j] == p);
            } else {
                assert(self.keys()[j + 1] == p);
            }
        }
        assert(other.wf()) by {
            assert forall|a: int, b: int|
                0 <= a < b < other.keys().len() implies other.keys()[a] != other.keys()[b] by {
                let a2: int = if a < i { a } else { a + 1 };
                let b2: int = if b < i { b } else { b + 1 };
                assert(other.keys()[a] == self.keys()[a2]);
                assert(other.keys()[b] == self.keys()[b2]);
            }
        }
        self.lemma_dom();
        other.lemma_dom();
        assert(other@ =~= self@.remove(self.keys()[i])) by {
            assert forall|p: Seq<char>|
                self.keys().contains(p) && p != self.keys()[i] implies other.keys().contains(p)
                && other@[p] == self@[p] by {
                let j = choose|j: int| 0 <= j < self.keys().len() && self.keys()[j] == p;
                assert(j != i);
                let j2: int = if j < i { j } else { j - 1 };
                assert(other.keys()[j2] == p);
                assert(other.vals()[j2] == self.vals()[j]);
                self.lemma_at(j);
                other.lemma_at(j2);
            }
        }
    }

    /// Effect of appending an absent key on the view.
    proof fn lemma_pushed(self, other: FileSet, path: Seq<char>, etag: Seq<char>)
        requires
            self.wf(),
            !self.keys().contains(path),
            other.keys() == self.keys().push(path),
            other.vals() == self.vals().push(etag),
        ensures
            other.wf(),
            other@ == self@.insert(path, etag),
    {
        let n = self.keys().len() as int;
        assert forall|p: Seq<char>| #[trigger] other.keys().contains(p) implies self.keys()
            .contains(p) || p == path by {
            let j = choose|j: int| 0 <= j < other.keys().len() && other.keys()[j] == p;
            if j < n {
                assert(self.keys()[j] == p);
            }
        }
        assert(other.wf()) by {
            assert forall|a: int, b: int|
                0 <= a < b < other.keys().len() implies other.keys()[a] != other.keys()[b] by {
                if b < n {
                    assert(other.keys()[a] == self.keys()[a]);
                    assert(other.keys()[b] == self.keys()[b]);
                } else {
                    assert(other.keys()[b] == path);
                    assert(self.keys().contains(self.keys()[a]));
                }
            }
        }
        self.lemma_dom();
        other.lemma_dom();
        assert(other@ =~= self@.insert(path, etag)) by {
            assert(other.keys()[n] == path);
            assert(other.keys().contains(path));
            other.lemma_at(n);
            assert forall|p: Seq<char>|
                self.keys().contains(p) implies other.keys().contains(p) && (p != path
                ==> other@[p] == self@[p]) by {
                let j = choose|j: int| 0 <= j < self.keys().len() && self.keys()[j] == p;
                assert(other.keys()[j] == p);
                if p != path {
                    self.lemma_at(j);
                    other.lemma_at(j);
                }
            }
        }
    }

    fn find_index(&self, path: &str) -> (r: Option<usize>)
        ensures
            match r {
                Some(i) => i < self.keys().len() && self.keys()[i as int] == path@,
                None => !self.keys().contains(path@),
            },
    {
        let n = self.entries.len();
        let mut i: usize = 0;
        while i < n
            invariant
                n == self.entries.len(),
                i <= n,
                forall|k: int| 0 <= k < i ==> self.keys()[k] != path@,
            decreases n - i,
        {
            if str_eq(self.entries[i].0.as_str(), path) {
                return Some(i);
            }
            i = i + 1;
        }
        None
    }

    /// Whether a path is present.
    pub fn contains_path(&self, path: &str) -> (r: bool)
        ensures
            r == self@.contains_key(path@),
    {
        proof {
            self.lemma_dom();
        }
        self.find_index(path).is_some()
    }

    /// The fingerprint recorded for a path, if the path is present.
    pub fn get_etag<'a>(&'a self, path: &str) -> (r: Option<&'a String>)
        requires
            self.wf(),
        ensures
            r is Some <==> self@.contains_key(path@),
            r matches Some(e) ==> e@ == self@[path@],
    {
        proof {
            self.lemma_dom();
        }
        match self.find_index(path) {
            Some(i) => {
                proof {
                    self.lemma_at(i as int);
                }
                Some(&self.entries[i].1.etag)
            },
            None => None,
        }
    }

    /// Record a fingerprint for a path, replacing any earlier record.
    pub fn insert(&mut self, path: String, info: FileInfo)
        requires
            old(self).wf(),
        ensures
            final(self).wf(),
            final(self)@ == old(self)@.insert(path@, info.etag@),
    {
        let ghost pre = *old(self);
        let ghost path_v = path@;
        let ghost etag_v = info.etag@;
        match self.find_index(path.as_str()) {
            Some(i) => {
                self.entries.remove(i);
                proof {
                    pre.lemma_removed(*self, i as int);
                }
            },
            None => {},
        }
        let ghost mid = *self;
        self.entries.push((path, info));
        proof {
            assert(self.keys() =~= mid.keys().push(path_v));
            assert(self.vals() =~= mid.vals().push(etag_v));
            mid.lemma_pushed(*self, path_v, etag_v);
            if pre.keys().contains(path_v) {
                assert(mid@ == pre@.remove(path_v));
                assert(self@ =~= pre@.insert(path_v, etag_v));
            } else {
                assert(mid == pre);
                assert(self@ =~= pre@.insert(path_v, etag_v));
            }
        }
    }
}

/// One step of the queue the diff engine produces: upload a local file
/// to the store, or delete a remote object.
#[derive(Debug)]
pub enum SyncOperation {
    Upload { local_path: String, remote_key: String },
    Delete { remote_key: String },
}

/// The local tree demands an upload of `p`: the path is local and is
/// missing remotely or carries a different fingerprint.
pub open spec fn upload_needed(
    l: Map<Seq<char>, Seq<char>>,
    r: Map<Seq<char>, Seq<char>>,
    p: Seq<char>,
) -> bool {
    l.contains_key(p) && (!r.contains_key(p) || l[p] != r[p])
}

/// The local tree demands a deletion of `p`: remote-only.
pub open spec fn delete_needed(
    l: Map<Seq<char>, Seq<char>>,
    r: Map<Seq<char>, Seq<char>>,
    p: Seq<char>,
) -> bool {
    r.contains_key(p) && !l.contains_key(p)
}

/// `op` is an upload of path `p` (source and destination agree).
pub open spec fn is_upload_of(op: SyncOperation, p: Seq<char>) -> bool {
    match op {
        SyncOperation::Upload { local_path, remote_key } => local_path@ == p && remote_key@ == p,
        SyncOperation::Delete { .. } => false,
    }
}

/// `op` is a deletion of path `p`.
pub open spec fn is_delete_of(op: SyncOperation, p: Seq<char>) -> bool {
    match op {
        SyncOperation::Upload { .. } => false,
        SyncOperation::Delete { remote_key } => remote_key@ == p,
    }
}

/// The path an operation acts on.
pub open spec fn op_path(op: SyncOperation) -> Seq<char> {
    match op {
        SyncOperation::Upload { local_path, .. } => local_path@,
        SyncOperation::Delete { remote_key } => remote_key@,
    }
}

/// An operation reduced to what identifies it: its kind and its path.
pub open spec fn op_tag(op: SyncOperation) -> (bool, Seq<char>) {
    (op is Upload, op_path(op))
}

/// `op` is justified by the two file sets.
pub open spec fn op_sound(
    l: Map<Seq<char>, Seq<char>>,
    r: Map<Seq<char>, Seq<char>>,
    op: SyncOperation,
) -> bool {
    match op {
        SyncOperation::Upload { local_path, remote_key } => remote_key@ == local_path@
            && upload_needed(l, r, local_path@),
        SyncOperation::Delete { remote_key } => delete_needed(l, r, remote_key@),
    }
}

/// `ops` is, as an unordered collection, exactly the diff of local set
/// `l` against remote set `r`: one upload per local path that is new or
/// changed, one deletion per remote-only path, and nothing else.
pub open spec fn is_sync_diff(
    l: Map<Seq<char>, Seq<char>>,
    r: Map<Seq<char>, Seq<char>>,
    ops: Seq<SyncOperation>,
) -> bool {
    &&& forall|i: int| 0 <= i < ops.len() ==> op_sound(l, r, #[trigger] ops[i])
    &&& forall|p: Seq<char>| #[trigger]
        upload_needed(l, r, p) ==> exists|i: int|
            0 <= i < ops.len() && is_upload_of(#[trigger] ops[i], p)
    &&& forall|p: Seq<char>| #[trigger]
        delete_needed(l, r, p) ==> exists|i: int|
            0 <= i < ops.len() && is_delete_of(#[trigger] ops[i], p)
    &&& forall|i: int, j: int|
        0 <= i < j < ops.len() ==> op_tag(ops[i]) != op_tag(ops[j])
}

/// Compare the two file sets and queue the operations that make the
/// remote side match the local side.
pub fn generate_sync_operations(local_files: &FileSet, remote_files: &FileSet) -> (ops: Vec<
    SyncOperation,
>)
    requires
        local_files.wf(),
        remote_files.wf(),
    ensures
        is_sync_diff(local_files@, remote_files@, ops@),
{
    let ghost l = local_files@;
    let ghost r = remote_files@;
    let ghost lk = local_files.keys();
    let ghost rk = remote_files.keys();
    let mut ops: Vec<SyncOperation> = Vec::new();

    let n = local_files.entries.len();
    let mut i: usize = 0;
    while i < n
        invariant
            local_files.wf(),
            remote_files.wf(),
            l == local_files@,
            r == remote_files@,
            lk == local_files.keys(),
            n == local_files.entries.len(),
            i <= n,
            forall|k: int| 0 <= k < ops@.len() ==> op_sound(l, r, #[trigger] ops@[k]),
            forall|k: int|
                0 <= k < ops@.len() ==> ops@[k] is Upload && exists|j: int|
                    0 <= j < i && lk[j] == op_path(#[trigger] ops@[k]),
            forall|j: int|
                0 <= j < i && upload_needed(l, r, #[trigger] lk[j]) ==> exists|k: int|
                    0 <= k < ops@.len() && is_upload_of(#[trigger] ops@[k], lk[j]),
            forall|k1: int, k2: int|
                0 <= k1 < k2 < ops@.len() ==> op_tag(ops@[k1]) != op_tag(ops@[k2]),
        decreases n - i,
    {
        let ghost ops0 = ops@;
        let path = &local_files.entries[i].0;
        let local_info = &local_files.entries[i].1;
        let ghost p = path@;
        proof {
            assert(lk[i as int] == p);
            local_files.lemma_at(i as int);
        }
        let needed: bool = match remote_files.get_etag(path.as_str()) {
            Some(remote_etag) => !str_eq(local_info.etag.as_str(), remote_etag.as_str()),
            None => true,
        };
        proof {
            assert(needed == upload_needed(l, r, p));
        }
        if needed {
            ops.push(
                SyncOperation::Upload { local_path: path.clone(), remote_key: path.clone() },
            );
            proof {
                let last = ops@.len() - 1;
                assert(is_upload_of(ops@[last], p));
                assert forall|k1: int, k2: int|
                    0 <= k1 < k2 < ops@.len() implies op_tag(ops@[k1]) != op_tag(
                    ops@[k2],
                ) by {
                    if k2 == last && k1 < last {
                        let j = choose|j: int| 0 <= j < i && lk[j] == op_path(ops0[k1]);
                        assert(lk[j] != lk[i as int]);
                        assert(ops@[k1] == ops0[k1]);
                    }
                }
            }
        }
        proof {
            assert forall|j: int|
                0 <= j < i + 1 && upload_needed(l, r, #[trigger] lk[j]) implies exists|k: int|
                0 <= k < ops@.len() && is_upload_of(#[trigger] ops@[k], lk[j]) by {
                if j == i {
                    assert(is_upload_of(ops@[ops@.len() - 1], lk[j]));
                } else {
                    let k = choose|k: int| 0 <= k < ops0.len() && is_upload_of(ops0[k], lk[j]);
                    assert(ops@[k] == ops0[k]);
                    assert(is_upload_of(ops@[k], lk[j]));
                }
            }
        }
        i = i + 1;
    }

    proof {
        local_files.lemma_dom();
        assert forall|p: Seq<char>| #[trigger] upload_needed(l, r, p) implies exists|k: int|
            0 <= k < ops@.len() && is_upload_of(#[trigger] ops@[k], p) by {
            assert(lk.contains(p));
            let j = choose|j: int| 0 <= j < lk.len() && lk[j] == p;
            assert(upload_needed(l, r, lk[j]));
        }
    }
    let m = remote_files.entries.len();
    let mut t: usize = 0;
    while t < m
        invariant
            local_files.wf(),
            remote_files.wf(),
            l == local_files@,
            r == remote_files@,
            rk == remote_files.keys(),
            m == remote_files.entries.len(),
            t <= m,
            forall|k: int| 0 <= k < ops@.len() ==> op_sound(l, r, #[trigger] ops@[k]),
            forall|p: Seq<char>| #[trigger]
                upload_needed(l, r, p) ==> exists|k: int|
                    0 <= k < ops@.len() && is_upload_of(#[trigger] ops@[k], p),
            forall|k: int|
                0 <= k < ops@.len() ==> ops@[k] is Upload || exists|j: int|
                    0 <= j < t && rk[j] == op_path(#[trigger] ops@[k]),
            forall|j: int|
                0 <= j < t && delete_needed(l, r, #[trigger] rk[j]) ==> exists|k: int|
                    0 <= k < ops@.len() && is_delete_of(#[trigger] ops@[k], rk[j]),
            forall|k1: int, k2: int|
                0 <= k1 < k2 < ops@.len() ==> op_tag(ops@[k1]) != op_tag(ops@[k2]),
        decreases m - t,
    {
        let ghost ops0 = ops@;
        let path = &remote_files.entries[t].0;
        let ghost p = path@;
        proof {
            assert(rk[t as int] == p);
            remote_files.lemma_at(t as int);
        }
        if !local_files.contains_path(path.as_str()) {
            ops.push(SyncOperation::Delete { remote_key: path.clone() });
            proof {
                let last = ops@.len() - 1;
                assert(is_delete_of(ops@[last], p));
                assert forall|k1: int, k2: int|
                    0 <= k1 < k2 < ops@.len() implies op_tag(ops@[k1]) != op_tag(
                    ops@[k2],
                ) by {
                    if k2 == last && k1 < last && !(ops0[k1] is Upload) {
                        let j = choose|j: int| 0 <= j < t && rk[j] == op_path(ops0[k1]);
                        assert(rk[j] != rk[t as int]);
                        assert(ops@[k1] == ops0[k1]);
                    }
                }
            }
        }
        proof {
            assert forall|p2: Seq<char>| #[trigger] upload_needed(l, r, p2) implies exists|k: int|
                0 <= k < ops@.len() && is_upload_of(#[trigger] ops@[k], p2) by {
                let k = choose|k: int| 0 <= k < ops0.len() && is_upload_of(ops0[k], p2);
                assert(ops@[k] == ops0[k]);
                assert(is_upload_of(ops@[k], p2));
            }
            assert forall|j: int|
                0 <= j < t + 1 && delete_needed(l, r, #[trigger] rk[j]) implies exists|k: int|
                0 <= k < ops@.len() && is_delete_of(#[trigger] ops@[k], rk[j]) by {
                if j == t {
                    assert(is_delete_of(ops@[ops@.len() - 1], rk[j]));
                } else {
                    let k = choose|k: int| 0 <= k < ops0.len() && is_delete_of(ops0[k], rk[j]);
                    assert(ops@[k] == ops0[k]);
                    assert(is_delete_of(ops@[k], rk[j]));
                }
            }
        }
        t = t + 1;
    }

    proof {
        remote_files.lemma_dom();
        assert forall|p: Seq<char>| #[trigger] delete_needed(l, r, p) implies exists|k: int|
            0 <= k < ops@.len() && is_delete_of(#[trigger] ops@[k], p) by {
            assert(rk.contains(p));
            let j = choose|j: int| 0 <= j < rk.len() && rk[j] == p;
            assert(delete_needed(l, r, rk[j]));
        }
    }
    ops
}

impl View for FileSet {
    type V = Map<Seq<char>, Seq<char>>;

    closed spec fn view(&self) -> Map<Seq<char>, Seq<char>> {
        Map::new(
            |p: Seq<char>| self.keys().contains(p),
            |p: Seq<char>| self.vals()[self.keys().index_of(p)],
        )
    }
}

/// The identifying tags of a queue, in queue order.
pub open spec fn op_tags(ops: Seq<SyncOperation>) -> Seq<(bool, Seq<char>)> {
    Seq::new(ops.len(), |i: int| op_tag(ops[i]))
}

/// The tags any correct diff of `l` against `r` must consist of.
pub open spec fn diff_tags(
    l: Map<Seq<char>, Seq<char>>,
    r: Map<Seq<char>, Seq<char>>,
) -> Set<(bool, Seq<char>)> {
    Set::new(
        |t: (bool, Seq<char>)|
            if t.0 {
                upload_needed(l, r, t.1)
            } else {
                delete_needed(l, r, t.1)
            },
    )
}

/// A diff queue holds exactly one upload per local path that is new or
/// changed, and exactly one deletion per remote-only path; nothing else.
pub proof fn lemma_diff_exactly_one(
    l: Map<Seq<char>, Seq<char>>,
    r: Map<Seq<char>, Seq<char>>,
    ops: Seq<SyncOperation>,
    p: Seq<char>,
)
    requires
        is_sync_diff(l, r, ops),
    ensures
        !upload_needed(l, r, p) ==> forall|i: int|
            0 <= i < ops.len() ==> !is_upload_of(#[trigger] ops[i], p),
        upload_needed(l, r, p) ==> exists|i: int|
            0 <= i < ops.len() && is_upload_of(#[trigger] ops[i], p),
        forall|i: int, j: int|
            0 <= i < ops.len() && 0 <= j < ops.len() && is_upload_of(#[trigger] ops[i], p)
                && is_upload_of(#[trigger] ops[j], p) ==> i == j,
        !delete_needed(l, r, p) ==> forall|i: int|
            0 <= i < ops.len() ==> !is_delete_of(#[trigger] ops[i], p),
        delete_needed(l, r, p) ==> exists|i: int|
            0 <= i < ops.len() && is_delete_of(#[trigger] ops[i], p),
        forall|i: int, j: int|
            0 <= i < ops.len() && 0 <= j < ops.len() && is_delete_of(#[trigger] ops[i], p)
                && is_delete_of(#[trigger] ops[j], p) ==> i == j,
{
    assert forall|i: int, j: int|
        0 <= i < ops.len() && 0 <= j < ops.len() && is_upload_of(ops[i], p) && is_upload_of(
            ops[j],
            p,
        ) implies i == j by {
        assert(op_tag(ops[i]) == (true, p));
        assert(op_tag(ops[j]) == (true, p));
    }
    assert forall|i: int, j: int|
        0 <= i < ops.len() && 0 <= j < ops.len() && is_delete_of(ops[i], p) && is_delete_of(
            ops[j],
            p,
        ) implies i == j by {
        assert(op_tag(ops[i]) == (false, p));
        assert(op_tag(ops[j]) == (false, p));
    }
}

/// Seen as an unordered collection of tags, a diff queue is a function
/// of the two maps alone; its length as well.
pub proof fn lemma_diff_tag_set(
    l: Map<Seq<char>, Seq<char>>,
    r: Map<Seq<char>, Seq<char>>,
    ops: Seq<SyncOperation>,
)
    requires
        is_sync_diff(l, r, ops),
    ensures
        op_tags(ops).no_duplicates(),
        op_tags(ops).to_set() == diff_tags(l, r),
        ops.len() == diff_tags(l, r).len(),
{
    let tags = op_tags(ops);
    assert(tags.no_duplicates());
    assert(tags.to_set() =~= diff_tags(l, r)) by {
        assert forall|t: (bool, Seq<char>)| tags.to_set().contains(t) implies diff_tags(
            l,
            r,
        ).contains(t) by {
            let i = choose|i: int| 0 <= i < tags.len() && tags[i] == t;
            assert(op_sound(l, r, ops[i]));
        }
        assert forall|t: (bool, Seq<char>)| diff_tags(l, r).contains(t) implies tags.to_set()
            .contains(t) by {
            if t.0 {
                assert(upload_needed(l, r, t.1));
                let i = choose|i: int| 0 <= i < ops.len() && is_upload_of(ops[i], t.1);
                assert(tags[i] == t);
                assert(tags.contains(t));
            } else {
                assert(delete_needed(l, r, t.1));
                let i = choose|i: int| 0 <= i < ops.len() && is_delete_of(ops[i], t.1);
                assert(tags[i] == t);
                assert(tags.contains(t));
            }
        }
    }
    tags.unique_seq_to_set();
}

/// The local paths that demand an upload.
pub open spec fn upload_paths(
    l: Map<Seq<char>, Seq<char>>,
    r: Map<Seq<char>, Seq<char>>,
) -> Set<Seq<char>> {
    Set::new(|p: Seq<char>| upload_needed(l, r, p))
}

/// The remote-only paths that demand a deletion.
pub open spec fn delete_paths(
    l: Map<Seq<char>, Seq<char>>,
    r: Map<Seq<char>, Seq<char>>,
) -> Set<Seq<char>> {
    Set::new(|p: Seq<char>| delete_needed(l, r, p))
}

/// The queue is as long as the number of local paths that are new or
/// changed plus the number of remote-only paths.
pub proof fn lemma_diff_length(
    l: Map<Seq<char>, Seq<char>>,
    r: Map<Seq<char>, Seq<char>>,
    ops: Seq<SyncOperation>,
)
    requires
        is_sync_diff(l, r, ops),
        l.dom().finite(),
        r.dom().finite(),
    ensures
        ops.len() == upload_paths(l, r).len() + delete_paths(l, r).len(),
{
    lemma_diff_tag_set(l, r, ops);
    let up = upload_paths(l, r);
    let dp = delete_paths(l, r);
    assert(up.subset_of(l.dom()));
    assert(dp.subset_of(r.dom()));
    vstd::set_lib::lemma_len_subset(up, l.dom());
    vstd::set_lib::lemma_len_subset(dp, r.dom());
    let to_upload_tag = |p: Seq<char>| (true, p);
    let to_delete_tag = |p: Seq<char>| (false, p);
    let ut = up.map(to_upload_tag);
    let dt = dp.map(to_delete_tag);
    vstd::set_lib::lemma_map_size(up, ut, to_upload_tag);
    vstd::set_lib::lemma_map_size(dp, dt, to_delete_tag);
    assert(diff_tags(l, r) =~= ut + dt) by {
        assert forall|t: (bool, Seq<char>)| diff_tags(l, r).contains(t) implies (ut + dt).contains(
            t,
        ) by {
            if t.0 {
                assert(up.contains(t.1) && t == to_upload_tag(t.1));
            } else {
                assert(dp.contains(t.1) && t == to_delete_tag(t.1));
            }
        }
    }
    vstd::set_lib::lemma_set_disjoint_lens(ut, dt);
    assert(ut.disjoint(dt));
}

/// Two diffs of the same pair of file sets agree as unordered
/// collections, whatever order either was produced in.
pub proof fn lemma_diff_deterministic(
    l: Map<Seq<char>, Seq<char>>,
    r: Map<Seq<char>, Seq<char>>,
    ops1: Seq<SyncOperation>,
    ops2: Seq<SyncOperation>,
)
    requires
        is_sync_diff(l, r, ops1),
        is_sync_diff(l, r, ops2),
    ensures
        op_tags(ops1).to_set() == op_tags(ops2).to_set(),
        ops1.len() == ops2.len(),
{
    lemma_diff_tag_set(l, r, ops1);
    lemma_diff_tag_set(l, r, ops2);
}

/// Diffing against an empty remote set yields only uploads, one per
/// local path; diffing an empty local set yields only deletions, one
/// per remote path.
pub proof fn lemma_diff_boundary(
    l: Map<Seq<char>, Seq<char>>,
    r: Map<Seq<char>, Seq<char>>,
    ops_no_remote: Seq<SyncOperation>,
    ops_no_local: Seq<SyncOperation>,
)
    requires
        is_sync_diff(l, Map::<Seq<char>, Seq<char>>::empty(), ops_no_remote),
        is_sync_diff(Map::<Seq<char>, Seq<char>>::empty(), r, ops_no_local),
    ensures
        forall|i: int|
            0 <= i < ops_no_remote.len() ==> #[trigger] ops_no_remote[i] is Upload
                && l.contains_key(op_path(ops_no_remote[i])),
        forall|p: Seq<char>|
            #[trigger] l.contains_key(p) ==> exists|i: int|
                0 <= i < ops_no_remote.len() && is_upload_of(#[trigger] ops_no_remote[i], p),
        forall|i: int|
            0 <= i < ops_no_local.len() ==> #[trigger] ops_no_local[i] is Delete
                && r.contains_key(op_path(ops_no_local[i])),
        forall|p: Seq<char>|
            #[trigger] r.contains_key(p) ==> exists|i: int|
                0 <= i < ops_no_local.len() && is_delete_of(#[trigger] ops_no_local[i], p),
{
    let e = Map::<Seq<char>, Seq<char>>::empty();
    assert forall|p: Seq<char>| #[trigger] l.contains_key(p) implies exists|i: int|
        0 <= i < ops_no_remote.len() && is_upload_of(#[trigger] ops_no_remote[i], p) by {
        assert(upload_needed(l, e, p));
    }
    assert forall|p: Seq<char>| #[trigger] r.contains_key(p) implies exists|i: int|
        0 <= i < ops_no_local.len() && is_delete_of(#[trigger] ops_no_local[i], p) by {
        assert(delete_needed(e, r, p));
    }
}

/// The remote map after one operation runs, under the model where a
/// completed upload leaves the store reporting the local fingerprint.
pub open spec fn apply_op(
    l: Map<Seq<char>, Seq<char>>,
    r: Map<Seq<char>, Seq<char>>,
    op: SyncOperation,
) -> Map<Seq<char>, Seq<char>> {
    match op {
        SyncOperation::Upload { local_path, remote_key } => r.insert(remote_key@, l[local_path@]),
        SyncOperation::Delete { remote_key } => r.remove(remote_key@),
    }
}

/// The remote map after a whole queue runs, in order.
pub open spec fn apply_ops(
    l: Map<Seq<char>, Seq<char>>,
    r: Map<Seq<char>, Seq<char>>,
    ops: Seq<SyncOperation>,
) -> Map<Seq<char>, Seq<char>>
    decreases ops.len(),
{
    if ops.len() == 0 {
        r
    } else {
        apply_op(l, apply_ops(l, r, ops.drop_last()), ops.last())
    }
}

/// What a queue of sound operations does to one path: a sound upload
/// pins it to the local fingerprint, a sound deletion removes it, and
/// an untouched path keeps its remote record.
proof fn lemma_apply_at(
    l: Map<Seq<char>, Seq<char>>,
    r: Map<Seq<char>, Seq<char>>,
    ops: Seq<SyncOperation>,
    p: Seq<char>,
)
    requires
        forall|i: int| 0 <= i < ops.len() ==> op_sound(l, r, #[trigger] ops[i]),
    ensures
        (exists|i: int| 0 <= i < ops.len() && is_upload_of(#[trigger] ops[i], p)) ==> {
            &&& apply_ops(l, r, ops).contains_key(p)
            &&& apply_ops(l, r, ops)[p] == l[p]
        },
        (exists|i: int| 0 <= i < ops.len() && is_delete_of(#[trigger] ops[i], p)) ==> !apply_ops(
            l,
            r,
            ops,
        ).contains_key(p),
        (forall|i: int| 0 <= i < ops.len() ==> op_path(#[trigger] ops[i]) != p) ==> {
            &&& apply_ops(l, r, ops).contains_key(p) == r.contains_key(p)
            &&& (r.contains_key(p) ==> apply_ops(l, r, ops)[p] == r[p])
        },
    decreases ops.len(),
{
    if ops.len() > 0 {
        let prefix = ops.drop_last();
        let last = ops.last();
        assert(forall|i: int| 0 <= i < prefix.len() ==> prefix[i] == ops[i]);
        lemma_apply_at(l, r, prefix, p);
        let mid = apply_ops(l, r, prefix);
        if exists|i: int| 0 <= i < ops.len() && is_upload_of(#[trigger] ops[i], p) {
            let i = choose|i: int| 0 <= i < ops.len() && is_upload_of(#[trigger] ops[i], p);
            assert(upload_needed(l, r, p));
            // no sound deletion can touch an uploaded path
            assert(op_path(last) == p ==> last is Upload);
            if i < ops.len() - 1 {
                assert(is_upload_of(prefix[i], p));
            } else {
                assert(is_upload_of(last, p));
            }
        }
        if exists|i: int| 0 <= i < ops.len() && is_delete_of(#[trigger] ops[i], p) {
            let i = choose|i: int| 0 <= i < ops.len() && is_delete_of(#[trigger] ops[i], p);
            assert(delete_needed(l, r, p));
            assert(op_path(last) == p ==> last is Delete);
            if i < ops.len() - 1 {
                assert(is_delete_of(prefix[i], p));
            } else {
                assert(is_delete_of(last, p));
            }
        }
    }
}

/// Running a diff queue leaves the remote set equal to the local set.
pub proof fn lemma_sync_makes_equal(
    l: Map<Seq<char>, Seq<char>>,
    r: Map<Seq<char>, Seq<char>>,
    ops: Seq<SyncOperation>,
)
    requires
        is_sync_diff(l, r, ops),
    ensures
        apply_ops(l, r, ops) == l,
{
    let res = apply_ops(l, r, ops);
    assert forall|p: Seq<char>|
        #![trigger l.contains_key(p)]
        #![trigger r.contains_key(p)]
        #![trigger res.contains_key(p)]
        true implies {
        &&& res.contains_key(p) == l.contains_key(p)
        &&& (l.contains_key(p) ==> res[p] == l[p])
    } by {
        lemma_apply_at(l, r, ops, p);
        if upload_needed(l, r, p) {
        } else if delete_needed(l, r, p) {
        } else {
            assert forall|i: int| 0 <= i < ops.len() implies op_path(#[trigger] ops[i]) != p by {
                assert(op_sound(l, r, ops[i]));
            }
        }
    }
    assert(res =~= l);
}

/// Diffing a file set against itself demands nothing.
pub proof fn lemma_diff_self_empty(m: Map<Seq<char>, Seq<char>>, ops: Seq<SyncOperation>)
    requires
        is_sync_diff(m, m, ops),
    ensures
        ops.len() == 0,
{
    if ops.len() > 0 {
        assert(op_sound(m, m, ops[0]));
    }
}

/// Idempotence: once a diff queue has run, diffing again against the
/// resulting remote set yields an empty queue.
pub proof fn lemma_sync_idempotent(
    l: Map<Seq<char>, Seq<char>>,
    r: Map<Seq<char>, Seq<char>>,
    ops: Seq<SyncOperation>,
    ops_again: Seq<SyncOperation>,
)
    requires
        is_sync_diff(l, r, ops),
        is_sync_diff(l, apply_ops(l, r, ops), ops_again),
    ensures
        ops_again.len() == 0,
{
    lemma_sync_makes_equal(l, r, ops);
    lemma_diff_self_empty(l, ops_again);
}

} // verus!
