//! The remote file enumerator: merging listing pages into a file set.
//!
//! The caller owns the network I/O. It issues one listing request per
//! page and feeds each page's entries here; pagination control goes by
//! the listing's truncation flag.

use vstd::prelude::*;
use crate::sync::{FileInfo, FileSet};
use crate::text::str_eq;

verus! {

/// One entry of a listing page, as the store reports it. Any of the
/// three fields may be absent.
pub struct RemoteEntry {
    pub key: Option<String>,
    pub etag: Option<String>,
    pub size: Option<i64>,
}

/// An entry is taken only when key, entity tag and size are all
/// present; an incomplete entry is skipped.
pub open spec fn entry_complete(e: RemoteEntry) -> bool {
    e.key is Some && e.etag is Some && e.size is Some
}

/// The key with the listing prefix stripped, when the key starts with
/// it; the whole key otherwise.
pub open spec fn strip_key_prefix(key: Seq<char>, prefix: Seq<char>) -> Seq<char> {
    if prefix.len() <= key.len() && key.take(prefix.len() as int) == prefix {
        key.skip(prefix.len() as int)
    } else {
        key
    }
}

/// The sequence without its single leading slash, when it has one.
pub open spec fn trim_leading_slash(s: Seq<char>) -> Seq<char> {
    if s.len() > 0 && s[0] == '/' {
        s.skip(1)
    } else {
        s
    }
}

/// The relative path an accepted entry contributes: its key with the
/// prefix stripped and at most one leading slash removed.
pub open spec fn entry_rel_key(e: RemoteEntry, prefix: Seq<char>) -> Seq<char> {
    trim_leading_slash(strip_key_prefix(e.key->Some_0@, prefix))
}

/// The file set after one page of entries is folded in, first to last.
pub open spec fn page_apply(
    m: Map<Seq<char>, Seq<char>>,
    prefix: Seq<char>,
    entries: Seq<RemoteEntry>,
) -> Map<Seq<char>, Seq<char>>
    decreases entries.len(),
{
    if entries.len() == 0 {
        m
    } else {
        let rest = page_apply(m, prefix, entries.drop_last());
        let e = entries.last();
        if entry_complete(e) {
            rest.insert(entry_rel_key(e, prefix), e.etag->Some_0@)
        } else {
            rest
        }
    }
}

/// Turn a listed key into the relative path used in the file set.
pub fn relative_remote_key(key: &str, prefix: &str) -> (r: String)
    ensures
        r@ == trim_leading_slash(strip_key_prefix(key@, prefix@)),
{
    let nk = key.unicode_len();
    let np = prefix.unicode_len();
    let stripped: &str = if np <= nk && str_eq(key.substring_char(0, np), prefix) {
        key.substring_char(np, nk)
    } else {
        key
    };
    proof {
        if np <= nk {
            assert(key@.take(np as int) == prefix@ <==> key@.subrange(0, np as int) == prefix@);
        }
        assert(stripped@ == strip_key_prefix(key@, prefix@));
    }
    let n = stripped.unicode_len();
    let start: usize = if n > 0 && stripped.get_char(0) == '/' {
        1
    } else {
        0
    };
    proof {
        assert(stripped@.subrange(start as int, n as int) =~= trim_leading_slash(stripped@));
    }
    stripped.substring_char(start, n).to_owned()
}

/// Fold one page of listing entries into the file set: complete
/// entries are recorded under their relative path with the reported
/// entity tag kept verbatim; incomplete ones are skipped.
pub fn add_listing_page(files: &mut FileSet, prefix: &str, entries: &Vec<RemoteEntry>)
    requires
        old(files).wf(),
    ensures
        final(files).wf(),
        final(files)@ == page_apply(old(files)@, prefix@, entries@),
{
    let n = entries.len();
    let mut i: usize = 0;
    while i < n
        invariant
            files.wf(),
            n == entries@.len(),
            i <= n,
            files@ == page_apply(old(files)@, prefix@, entries@.take(i as int)),
        decreases n - i,
    {
        let ghost pre = files@;
        match (&entries[i].key, &entries[i].etag, &entries[i].size) {
            (Some(key), Some(etag), Some(_size)) => {
                let rel = relative_remote_key(key.as_str(), prefix);
                files.insert(rel, FileInfo { etag: etag.clone() });
            },
            _ => {},
        }
        proof {
            let cur = entries@.take(i + 1);
            assert(cur.drop_last() =~= entries@.take(i as int));
            assert(cur.last() == entries@[i as int]);
            assert(files@ == page_apply(old(files)@, prefix@, cur));
        }
        i = i + 1;
    }
    proof {
        assert(entries@.take(n as int) =~= entries@);
    }
}

/// Whether the listing response says more pages follow; an absent flag
/// means the listing is complete.
pub fn more_pages(is_truncated: Option<bool>) -> (r: bool)
    ensures
        r == (is_truncated == Some(true)),
{
    match is_truncated {
        Some(b) => b,
        None => false,
    }
}

} // verus!
