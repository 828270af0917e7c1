//! Resolving remote locations: bucket/prefix splitting and key joins.

use vstd::prelude::*;

verus! {

/// Index of the first slash in `s`, or -1 when there is none.
pub open spec fn find_slash(s: Seq<char>) -> int
    decreases s.len(),
{
    if s.len() == 0 {
        -1
    } else if s[0] == '/' {
        0
    } else {
        let k = find_slash(s.skip(1));
        if k < 0 {
            -1
        } else {
            k + 1
        }
    }
}

proof fn lemma_find_slash_none(s: Seq<char>)
    requires
        forall|k: int| 0 <= k < s.len() ==> s[k] != '/',
    ensures
        find_slash(s) == -1,
    decreases s.len(),
{
    if s.len() > 0 {
        lemma_find_slash_none(s.skip(1));
    }
}

proof fn lemma_find_slash_at(s: Seq<char>, i: int)
    requires
        0 <= i < s.len(),
        s[i] == '/',
        forall|k: int| 0 <= k < i ==> s[k] != '/',
    ensures
        find_slash(s) == i,
    decreases i,
{
    if i > 0 {
        lemma_find_slash_at(s.skip(1), i - 1);
    }
}

/// Split a combined remote location of the shape
/// `container/prefix` at the first slash. Without a slash the whole
/// string is the container and the prefix is empty.
pub fn split_location(remote_dir: &str) -> (r: (String, String))
    ensures
        find_slash(remote_dir@) < 0 ==> r.0@ == remote_dir@ && r.1@ == Seq::<char>::empty(),
        find_slash(remote_dir@) >= 0 ==> r.0@ == remote_dir@.take(find_slash(remote_dir@))
            && r.1@ == remote_dir@.skip(find_slash(remote_dir@) + 1),
{
    let n = remote_dir.unicode_len();
    let mut i: usize = 0;
    loop
        invariant
            n == remote_dir@.len(),
            i <= n,
            forall|k: int| 0 <= k < i ==> remote_dir@[k] != '/',
        ensures
            i <= n,
            forall|k: int| 0 <= k < i ==> remote_dir@[k] != '/',
            i == n || remote_dir@[i as int] == '/',
        decreases n - i,
    {
        if i >= n {
            break;
        }
        if remote_dir.get_char(i) == '/' {
            break;
        }
        i = i + 1;
    }
    if i == n {
        proof {
            lemma_find_slash_none(remote_dir@);
        }
        (remote_dir.to_owned(), String::new())
    } else {
        proof {
            lemma_find_slash_at(remote_dir@, i as int);
            assert(remote_dir@.subrange(0, i as int) =~= remote_dir@.take(i as int));
            assert(remote_dir@.subrange(i + 1, n as int) =~= remote_dir@.skip(i + 1));
        }
        let bucket = remote_dir.substring_char(0, i).to_owned();
        let prefix = remote_dir.substring_char(i + 1, n).to_owned();
        (bucket, prefix)
    }
}

/// Give a non-empty prefix its trailing slash if it lacks one, so keys
/// join cleanly under it; an empty prefix stays empty.
pub fn normalize_prefix(remote_dir: &str) -> (r: String)
    ensures
        remote_dir@.len() > 0 && remote_dir@.last() != '/' ==> r@ == remote_dir@.push('/'),
        remote_dir@.len() == 0 || remote_dir@.last() == '/' ==> r@ == remote_dir@,
{
    let n = remote_dir.unicode_len();
    let mut s = remote_dir.to_owned();
    if n > 0 && remote_dir.get_char(n - 1) != '/' {
        s.push('/');
    }
    s
}

/// The full key an operation addresses: the prefix followed by the
/// relative key.
pub fn full_remote_key(prefix: &str, relative_key: &str) -> (r: String)
    ensures
        r@ == prefix@ + relative_key@,
{
    let mut s = prefix.to_owned();
    s.append(relative_key);
    s
}

} // verus!
