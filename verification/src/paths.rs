//! Path arithmetic on `/`-separated paths held as text: the file name, its
//! extension, and joining a relative path onto a root, as `std::path` does
//! them on Unix.

use crate::text::{chars_of, str_views};
use vstd::prelude::*;

verus! {

/// Position just after the last `'/'` of `p` (0 when there is none).
pub open spec fn after_last_slash(p: Seq<char>) -> int
    decreases p.len(),
{
    if p.len() == 0 {
        0
    } else if p.last() == '/' {
        p.len() as int
    } else {
        after_last_slash(p.drop_last())
    }
}

/// The last component of `p` when it is a normal name (`Path::file_name`):
/// trailing `/` and `.` components are skipped; `..`, the root, or no
/// component at all give `None`.
pub open spec fn file_name(p: Seq<char>) -> Option<Seq<char>>
    decreases p.len(),
{
    if p.len() == 0 {
        None
    } else if p.last() == '/' {
        file_name(p.drop_last())
    } else {
        let k = after_last_slash(p);
        let seg = p.skip(k);
        if seg == seq!['.'] {
            proof {
                lemma_after_last_slash(p);
            }
            file_name(p.take(k))
        } else if seg == seq!['.', '.'] {
            None
        } else {
            Some(seg)
        }
    }
}

/// Position of the last `'.'` in `s`, or -1.
pub open spec fn last_dot(s: Seq<char>) -> int
    decreases s.len(),
{
    if s.len() == 0 {
        -1
    } else if s.last() == '.' {
        s.len() - 1
    } else {
        last_dot(s.drop_last())
    }
}

/// The extension of a file name (`Path::extension` on the name): the text
/// after the last `'.'`, unless there is no `'.'` or the only one starts
/// the name.
pub open spec fn name_extension(name: Seq<char>) -> Option<Seq<char>> {
    let d = last_dot(name);
    if d <= 0 {
        None
    } else {
        Some(name.skip(d + 1))
    }
}

/// The extension of the path `p`.
pub open spec fn path_extension(p: Seq<char>) -> Option<Seq<char>> {
    match file_name(p) {
        Some(name) => name_extension(name),
        None => None,
    }
}

/// Whether the extension of `p` is one of `extensions`.
pub open spec fn extension_in(p: Seq<char>, extensions: Seq<Seq<char>>) -> bool {
    match path_extension(p) {
        Some(e) => extensions.contains(e),
        None => false,
    }
}

pub proof fn lemma_after_last_slash(p: Seq<char>)
    ensures
        0 <= after_last_slash(p) <= p.len(),
        after_last_slash(p) > 0 ==> p[after_last_slash(p) - 1] == '/',
        forall|j: int| after_last_slash(p) <= j < p.len() ==> p[j] != '/',
    decreases p.len(),
{
    if p.len() > 0 && p.last() != '/' {
        lemma_after_last_slash(p.drop_last());
        let k = after_last_slash(p.drop_last());
        assert forall|j: int| k <= j < p.len() implies p[j] != '/' by {
            if j < p.len() - 1 {
                assert(p.drop_last()[j] == p[j]);
            }
        }
        if k > 0 {
            assert(p.drop_last()[k - 1] == p[k - 1]);
        }
    }
}

pub proof fn lemma_last_dot(s: Seq<char>)
    ensures
        -1 <= last_dot(s) < s.len(),
        last_dot(s) >= 0 ==> s[last_dot(s)] == '.',
        forall|j: int| last_dot(s) < j < s.len() ==> s[j] != '.',
    decreases s.len(),
{
    if s.len() > 0 && s.last() != '.' {
        lemma_last_dot(s.drop_last());
        let k = last_dot(s.drop_last());
        assert forall|j: int| k < j < s.len() implies s[j] != '.' by {
            if j < s.len() - 1 {
                assert(s.drop_last()[j] == s[j]);
            }
        }
        if k >= 0 {
            assert(s.drop_last()[k] == s[k]);
        }
    }
}

pub(crate) fn after_last_slash_in(p: &[char], n: usize) -> (k: usize)
    requires
        n <= p@.len(),
    ensures
        k == after_last_slash(p@.take(n as int)),
        k <= n,
{
    let mut k = n;
    while k > 0 && p[k - 1] != '/'
        invariant
            k <= n <= p@.len(),
            after_last_slash(p@.take(n as int)) == after_last_slash(p@.take(k as int)),
        decreases k,
    {
        proof {
            assert(p@.take(k as int).drop_last() =~= p@.take(k - 1));
        }
        k = k - 1;
    }
    proof {
        if k > 0 {
            assert(p@.take(k as int).last() == '/');
        }
    }
    k
}

/// The file name of `p[..n]`, as a range `[from, to)` of `p`.
fn file_name_range(p: &[char], n: usize) -> (r: Option<(usize, usize)>)
    requires
        n <= p@.len(),
    ensures
        match r {
            Some((a, b)) => a <= b <= n && file_name(p@.take(n as int)) == Some(
                p@.subrange(a as int, b as int),
            ),
            None => file_name(p@.take(n as int)) is None,
        },
    decreases n,
{
    if n == 0 {
        return None;
    }
    if p[n - 1] == '/' {
        proof {
            assert(p@.take(n as int).drop_last() =~= p@.take(n - 1));
        }
        return file_name_range(p, n - 1);
    }
    let k = after_last_slash_in(p, n);
    proof {
        lemma_after_last_slash(p@.take(n as int));
        assert(p@.take(n as int).skip(k as int) =~= p@.subrange(k as int, n as int));
    }
    if n - k == 1 && p[k] == '.' {
        proof {
            assert(p@.subrange(k as int, n as int) =~= seq!['.']);
            assert(p@.take(n as int).take(k as int) =~= p@.take(k as int));
        }
        return file_name_range(p, k);
    }
    if n - k == 2 && p[k] == '.' && p[k + 1] == '.' {
        proof {
            assert(p@.subrange(k as int, n as int) =~= seq!['.', '.']);
        }
        return None;
    }
    proof {
        let seg = p@.subrange(k as int, n as int);
        if seg == seq!['.'] {
            assert(seg[0] == p@[k as int]);
        }
        if seg == seq!['.', '.'] {
            assert(seg[0] == p@[k as int]);
            assert(seg[1] == p@[k + 1]);
        }
    }
    Some((k, n))
}

/// Whether the extension of `path` is one of `extensions`
/// (`Path::extension` compared with each entry).
pub fn extension_matches(path: &str, extensions: &[&'static str]) -> (r: bool)
    ensures
        r == extension_in(path@, str_views(extensions@)),
{
    let p = chars_of(path);
    proof {
        assert(p@.take(p@.len() as int) =~= p@);
    }
    let (a, b) = match file_name_range(p.as_slice(), p.len()) {
        Some(range) => range,
        None => return false,
    };
    let ghost name = p@.subrange(a as int, b as int);
    let mut d = b;
    proof {
        assert(name.take(b - a) =~= name);
    }
    while d > a && p[d - 1] != '.'
        invariant
            a <= d <= b <= p@.len(),
            name == p@.subrange(a as int, b as int),
            last_dot(name) == last_dot(name.take(d - a)),
        decreases d,
    {
        proof {
            assert(name.take(d - a).drop_last() =~= name.take(d - a - 1));
            assert(name.take(d - a).last() == p@[d - 1]);
        }
        d = d - 1;
    }
    proof {
        assert(name.take(b - a) =~= name);
        if d > a {
            assert(name.take(d - a).last() == p@[d - 1]);
            assert(name.take(d - a).drop_last() =~= name.take(d - a - 1));
        } else {
            assert(name.take(0) =~= seq![]);
        }
    }
    proof {
        lemma_last_dot(name);
        assert(file_name(path@) == Some(name));
        if d > a {
            assert(last_dot(name.take(d - a)) == d - a - 1);
        } else {
            assert(last_dot(name.take(0)) == -1);
        }
        assert(last_dot(name) == d - a - 1);
    }
    if d - a <= 1 {
        return false;
    }
    let ext = crate::text::slice_to_vec(p.as_slice(), d, b);
    proof {
        assert(ext@ =~= name.skip(d - a));
        assert(path_extension(path@) == Some(ext@));
    }
    let mut i: usize = 0;
    while i < extensions.len()
        invariant
            i <= extensions@.len(),
            path_extension(path@) == Some(ext@),
            forall|j: int| 0 <= j < i ==> str_views(extensions@)[j] != ext@,
        decreases extensions@.len() - i,
    {
        let e = chars_of(extensions[i]);
        if crate::text::chars_eq(e.as_slice(), ext.as_slice()) {
            proof {
                assert(str_views(extensions@)[i as int] == ext@);
            }
            return true;
        }
        i = i + 1;
    }
    false
}

/// `rel` joined onto `root` (`Path::join` on Unix): an absolute `rel`
/// replaces `root`; otherwise one `'/'` separates them unless `root` is
/// empty or already ends with one.
pub open spec fn join_path_spec(root: Seq<char>, rel: Seq<char>) -> Seq<char> {
    if rel.len() > 0 && rel[0] == '/' {
        rel
    } else if root.len() == 0 || root.last() == '/' {
        root + rel
    } else {
        root + seq!['/'] + rel
    }
}

/// Whether `p` is an absolute path (it starts at the root directory).
pub open spec fn is_absolute_path(p: Seq<char>) -> bool {
    p.len() > 0 && p[0] == '/'
}

/// Joining anything onto an absolute root gives an absolute path.
pub proof fn lemma_join_onto_absolute(root: Seq<char>, rel: Seq<char>)
    requires
        is_absolute_path(root),
    ensures
        is_absolute_path(join_path_spec(root, rel)),
{
    if !(rel.len() > 0 && rel[0] == '/') {
        if root.last() == '/' {
            assert((root + rel)[0] == root[0]);
        } else {
            assert((root + seq!['/'] + rel)[0] == root[0]);
        }
    }
}

/// Join `rel` onto `root` as `Path::join` does.
pub fn join_path(root: &[char], rel: &[char]) -> (r: Vec<char>)
    ensures
        r@ == join_path_spec(root@, rel@),
{
    let mut out: Vec<char> = Vec::new();
    if !(rel.len() > 0 && rel[0] == '/') {
        out = crate::text::slice_to_vec(root, 0, root.len());
        proof {
            assert(out@ =~= root@);
        }
        if !(root.len() == 0 || root[root.len() - 1] == '/') {
            out.push('/');
        }
    }
    let ghost before = out@;
    let mut i: usize = 0;
    while i < rel.len()
        invariant
            i <= rel@.len(),
            out@ == before + rel@.take(i as int),
        decreases rel@.len() - i,
    {
        out.push(rel[i]);
        i = i + 1;
        proof {
            assert(rel@.take(i as int) =~= rel@.take(i - 1).push(rel@[i - 1]));
        }
    }
    proof {
        assert(rel@.take(rel@.len() as int) =~= rel@);
        if rel@.len() > 0 && rel@[0] == '/' {
            assert(before =~= seq![]);
        }
    }
    out
}

} // verus!
