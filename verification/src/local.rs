//! The local file enumerator: fingerprinting and the worklist walk.
//!
//! The caller owns the directory I/O. It feeds listings and file
//! contents into a `LocalWalker`, which keeps the explicit worklist of
//! pending directories and the file set built so far.

use vstd::prelude::*;
use crate::sync::{FileInfo, FileSet};

verus! {

/// The digest md5::compute assigns to a byte sequence.
pub uninterp spec fn md5_of(bytes: Seq<u8>) -> Seq<u8>;

/// Relies on md5::compute: the digest is a function of the input bytes
/// alone, and is sixteen bytes long.
#[verifier::external_body]
fn md5_digest(content: &[u8]) -> (r: Vec<u8>)
    ensures
        r@ == md5_of(content@),
        r@.len() == 16,
{
    md5::compute(content).0.to_vec()
}

/// The character for one hexadecimal digit, in lower case.
pub open spec fn hex_digit(n: u8) -> char {
    if n < 10 {
        (n + 48) as char
    } else {
        (n + 87) as char
    }
}

/// The lowercase hexadecimal rendering of a byte sequence, two digits
/// per byte, high digit first.
pub open spec fn hex_of(bytes: Seq<u8>) -> Seq<char>
    decreases bytes.len(),
{
    if bytes.len() == 0 {
        Seq::empty()
    } else {
        hex_of(bytes.drop_last()).push(hex_digit(bytes.last() / 16)).push(
            hex_digit(bytes.last() % 16),
        )
    }
}

/// Hex rendering yields two characters per byte.
pub proof fn lemma_hex_len(bytes: Seq<u8>)
    ensures
        hex_of(bytes).len() == 2 * bytes.len(),
    decreases bytes.len(),
{
    if bytes.len() > 0 {
        lemma_hex_len(bytes.drop_last());
    }
}

fn hex_digit_char(n: u8) -> (c: char)
    requires
        n < 16,
    ensures
        c == hex_digit(n),
{
    if n < 10 {
        (n + 48) as char
    } else {
        (n + 87) as char
    }
}

/// Render bytes as lowercase hexadecimal.
pub fn to_hex_lower(bytes: &[u8]) -> (r: String)
    ensures
        r@ == hex_of(bytes@),
        r@.len() == 2 * bytes@.len(),
{
    proof {
        lemma_hex_len(bytes@);
    }
    let n = bytes.len();
    let mut out = String::new();
    let mut i: usize = 0;
    while i < n
        invariant
            n == bytes@.len(),
            i <= n,
            out@ == hex_of(bytes@.take(i as int)),
        decreases n - i,
    {
        let b = bytes[i];
        out.push(hex_digit_char(b / 16));
        out.push(hex_digit_char(b % 16));
        proof {
            let pre = bytes@.take(i as int);
            let cur = bytes@.take(i + 1);
            assert(cur.drop_last() =~= pre);
            assert(cur.last() == bytes@[i as int]);
        }
        i = i + 1;
    }
    proof {
        assert(bytes@.take(n as int) =~= bytes@);
    }
    out
}

/// The fingerprint the enumerator records for a file with the given
/// content: the lowercase hex digest of its md5 hash.
pub open spec fn fingerprint_of(content: Seq<u8>) -> Seq<char> {
    hex_of(md5_of(content))
}

/// Fingerprint a file's full content: thirty-two hex characters.
pub fn fingerprint_of_content(content: &[u8]) -> (r: String)
    ensures
        r@ == fingerprint_of(content@),
        r@.len() == 32,
{
    let digest = md5_digest(content);
    to_hex_lower(digest.as_slice())
}

/// Path separator normalization: every backslash becomes a slash, so
/// relative paths look the same on every platform.
pub open spec fn normalize_sep(s: Seq<char>) -> Seq<char> {
    s.map_values(|c: char| if c == '\\' { '/' } else { c })
}

/// Normalize a relative path's separators to forward slashes.
pub fn normalize_separators(s: &str) -> (r: String)
    ensures
        r@ == normalize_sep(s@),
{
    let n = s.unicode_len();
    let mut out = String::new();
    let mut i: usize = 0;
    while i < n
        invariant
            n == s@.len(),
            i <= n,
            out@ == normalize_sep(s@.take(i as int)),
        decreases n - i,
    {
        let c = s.get_char(i);
        out.push(if c == '\\' { '/' } else { c });
        proof {
            assert(normalize_sep(s@.take(i + 1)) =~= normalize_sep(s@.take(i as int)).push(
                if s@[i as int] == '\\' { '/' } else { s@[i as int] },
            ));
        }
        i = i + 1;
    }
    proof {
        assert(s@.take(n as int) =~= s@);
    }
    out
}

/// Iterative traversal state: a worklist of directories still to list,
/// and the files recorded so far. No call-stack recursion is involved,
/// so arbitrarily deep trees cost no stack.
pub struct LocalWalker {
    pending: Vec<String>,
    files: FileSet,
}

impl LocalWalker {
    /// Directories still to be listed, in worklist order.
    pub closed spec fn pending_dirs(&self) -> Seq<Seq<char>> {
        self.pending.deep_view()
    }

    /// The file set recorded so far.
    pub closed spec fn files_map(&self) -> Map<Seq<char>, Seq<char>> {
        self.files@
    }

    pub closed spec fn wf(&self) -> bool {
        self.files.wf()
    }

    /// Start a walk at the root directory.
    pub fn new(root: String) -> (w: LocalWalker)
        ensures
            w.wf(),
            w.pending_dirs() == seq![root@],
            w.files_map() == Map::<Seq<char>, Seq<char>>::empty(),
    {
        let mut pending: Vec<String> = Vec::new();
        pending.push(root);
        let w = LocalWalker { pending, files: FileSet::new() };
        proof {
            assert(w.pending_dirs() =~= seq![w.pending@[0]@]);
        }
        w
    }

    /// Take the next directory to list, if any is left.
    pub fn next_dir(&mut self) -> (r: Option<String>)
        ensures
            final(self).wf() == old(self).wf(),
            final(self).files_map() == old(self).files_map(),
            old(self).pending_dirs().len() == 0 ==> r is None && final(self).pending_dirs()
                == old(self).pending_dirs(),
            old(self).pending_dirs().len() > 0 ==> r is Some && r->Some_0@ == old(
                self,
            ).pending_dirs().last() && final(self).pending_dirs() == old(
                self,
            ).pending_dirs().drop_last(),
    {
        let r = self.pending.pop();
        proof {
            if old(self).pending@.len() > 0 {
                assert(self.pending_dirs() =~= old(self).pending_dirs().drop_last());
            } else {
                assert(self.pending_dirs() =~= old(self).pending_dirs());
            }
        }
        r
    }

    /// Queue a subdirectory found in a listing.
    pub fn record_dir(&mut self, dir: String)
        ensures
            final(self).wf() == old(self).wf(),
            final(self).files_map() == old(self).files_map(),
            final(self).pending_dirs() == old(self).pending_dirs().push(dir@),
    {
        self.pending.push(dir);
        proof {
            assert(self.pending_dirs() =~= old(self).pending_dirs().push(dir@));
        }
    }

    /// Record a regular file found in a listing: its path relative to
    /// the root, separators normalized, mapped to its content
    /// fingerprint.
    pub fn record_file(&mut self, relative_path: &str, content: &[u8])
        requires
            old(self).wf(),
        ensures
            final(self).wf(),
            final(self).pending_dirs() == old(self).pending_dirs(),
            final(self).files_map() == old(self).files_map().insert(
                normalize_sep(relative_path@),
                fingerprint_of(content@),
            ),
    {
        let path = normalize_separators(relative_path);
        let etag = fingerprint_of_content(content);
        self.files.insert(path, FileInfo { etag });
    }

    /// Finish the walk and hand over the file set.
    pub fn into_files(self) -> (r: FileSet)
        requires
            self.wf(),
        ensures
            r.wf(),
            r@ == self.files_map(),
    {
        self.files
    }
}

} // verus!
