//! File paths as text, with `/` between their components: the directory of
//! a file, its extension, paths joined, rooted paths and web addresses.
//!
//! A path is read as a sequence of components between slashes. Slashes that
//! follow each other count as one, and a component `.` behind a slash
//! stands for nothing, so `docs//a.adoc` and `docs/./a.adoc` both name the
//! file `a.adoc` in the directory `docs`.

use crate::text::{same_text, starts_with};
use vstd::prelude::*;

verus! {

/// Whether `p` starts at the root, that is, with `/`.
pub open spec fn is_rooted(p: Seq<char>) -> bool {
    p.len() > 0 && p[0] == '/'
}

/// The start of a plain web address: `http://`.
pub open spec fn http_scheme() -> Seq<char> {
    "http://"@
}

/// The start of a secure web address: `https://`.
pub open spec fn https_scheme() -> Seq<char> {
    "https://"@
}

/// Whether `p` is a web address.
pub open spec fn is_url(p: Seq<char>) -> bool {
    http_scheme().is_prefix_of(p) || https_scheme().is_prefix_of(p)
}

/// Whether `p` is meant relative to the file that names it: neither rooted
/// nor a web address.
pub open spec fn is_relative(p: Seq<char>) -> bool {
    !is_rooted(p) && !is_url(p)
}

/// The index of the last `/` in `p`, or -1 where it has none.
pub open spec fn last_slash(p: Seq<char>) -> int
    decreases p.len(),
{
    if p.len() == 0 {
        -1
    } else if p.last() == '/' {
        p.len() - 1
    } else {
        last_slash(p.drop_last())
    }
}

/// Whether `p` ends, behind its first character, in what names nothing: a
/// slash, or a component `.`.
pub open spec fn ends_blank(p: Seq<char>) -> bool {
    p.len() > 1 && (p.last() == '/' || (p.last() == '.' && p[p.len() - 2] == '/'))
}

/// `p` up to the end of its last component that names something: without
/// the slashes and the components `.` at its end. The first character of
/// `p` always stays.
pub open spec fn tidied(p: Seq<char>) -> Seq<char>
    decreases p.len(),
{
    if ends_blank(p) {
        tidied(p.drop_last())
    } else {
        p
    }
}

/// The last component of `p`: what follows the last `/` of `p`, tidied.
pub open spec fn file_name(p: Seq<char>) -> Seq<char> {
    tidied(p).skip(last_slash(tidied(p)) + 1)
}

/// The end of the name of an AsciiDoc file: `.adoc`.
pub open spec fn adoc_suffix() -> Seq<char> {
    ".adoc"@
}

/// Whether the file `p` has the extension `adoc`: its name ends in `.adoc`
/// and has something before that.
pub open spec fn is_adoc(p: Seq<char>) -> bool {
    file_name(p).len() > adoc_suffix().len() && adoc_suffix().is_suffix_of(file_name(p))
}

/// The directory of the file `p`: `p` without its last component, tidied.
/// It is empty where `p` has one component only, and the root where the
/// last component stands right behind the root.
pub open spec fn parent_dir(p: Seq<char>) -> Seq<char> {
    let path = tidied(p);
    let i = last_slash(path);
    if i < 0 {
        Seq::empty()
    } else if i == 0 {
        path.take(1)
    } else {
        tidied(path.take(i))
    }
}

/// `rel` as seen from the directory `dir`: `rel` itself where it is
/// rooted, else `dir`, a `/` unless `dir` is empty or ends in one, and
/// `rel`.
pub open spec fn joined(dir: Seq<char>, rel: Seq<char>) -> Seq<char> {
    if is_rooted(rel) {
        rel
    } else if dir.len() == 0 || dir.last() == '/' {
        dir + rel
    } else {
        dir + seq!['/'] + rel
    }
}

/// Whether `p` starts at the root.
pub fn has_root(p: &str) -> (r: bool)
    ensures
        r == is_rooted(p@),
{
    !p.is_empty() && p.get_char(0) == '/'
}

/// Whether `p` is neither rooted nor a web address.
pub fn is_relative_path(p: &str) -> (r: bool)
    ensures
        r == is_relative(p@),
{
    !has_root(p) && !starts_with(p, "http://") && !starts_with(p, "https://")
}

/// How much of the first `end` characters of `p` is left when they are
/// tidied.
fn tidy_end(p: &str, end: usize) -> (k: usize)
    requires
        end <= p@.len(),
    ensures
        k <= end,
        tidied(p@.take(end as int)) == p@.take(k as int),
{
    let mut k: usize = end;
    while k > 1 && (p.get_char(k - 1) == '/' || (p.get_char(k - 1) == '.' && p.get_char(k - 2)
        == '/'))
        invariant
            k <= end <= p@.len(),
            tidied(p@.take(end as int)) == tidied(p@.take(k as int)),
        decreases k,
    {
        assert(p@.take(k as int).drop_last() =~= p@.take(k - 1));
        k -= 1;
    }
    k
}

/// Where the last component of the first `end` characters of `p` starts:
/// behind their last `/`.
fn name_start(p: &str, end: usize) -> (i: usize)
    requires
        end <= p@.len(),
    ensures
        i == last_slash(p@.take(end as int)) + 1,
        i <= end,
{
    let mut i: usize = end;
    while i > 0 && p.get_char(i - 1) != '/'
        invariant
            i <= end <= p@.len(),
            last_slash(p@.take(end as int)) == last_slash(p@.take(i as int)),
        decreases i,
    {
        assert(p@.take(i as int).drop_last() =~= p@.take(i - 1));
        i -= 1;
    }
    i
}

/// Whether the file `p` has the extension `adoc`.
pub fn has_adoc_extension(p: &str) -> (r: bool)
    ensures
        r == is_adoc(p@),
{
    proof {
        reveal_strlit(".adoc");
    }
    let n = p.unicode_len();
    assert(p@.take(n as int) =~= p@);
    let end = tidy_end(p, n);
    let start = name_start(p, end);
    assert(file_name(p@) =~= p@.subrange(start as int, end as int));
    if end - start <= 5 {
        return false;
    }
    let tail = p.substring_char(end - 5, end);
    proof {
        let name = file_name(p@);
        assert(name.subrange(name.len() - 5, name.len() as int) =~= tail@);
    }
    same_text(tail, ".adoc")
}

/// The directory of the file `p`.
pub fn parent(p: &str) -> (r: &str)
    ensures
        r@ == parent_dir(p@),
{
    let n = p.unicode_len();
    assert(p@.take(n as int) =~= p@);
    let end = tidy_end(p, n);
    let start = name_start(p, end);
    let ghost path = p@.take(end as int);
    if start == 0 {
        proof {
            reveal_strlit("");
        }
        return "";
    }
    let cut: usize = if start == 1 {
        1
    } else {
        start - 1
    };
    assert(path.take(cut as int) =~= p@.take(cut as int));
    let k = if start == 1 {
        1
    } else {
        tidy_end(p, cut)
    };
    assert(p@.subrange(0, k as int) =~= p@.take(k as int));
    p.substring_char(0, k)
}

/// `rel` as seen from the directory `dir`.
pub fn join(dir: &str, rel: &str) -> (r: String)
    ensures
        r@ == joined(dir@, rel@),
{
    if has_root(rel) {
        return String::from_str(rel);
    }
    let n = dir.unicode_len();
    let mut out = String::from_str(dir);
    if n > 0 && dir.get_char(n - 1) != '/' {
        out.append("/");
    }
    out.append(rel);
    proof {
        reveal_strlit("/");
        assert(out@ =~= joined(dir@, rel@));
    }
    out
}

/// The last `/` of a path is a `/` with none behind it.
pub proof fn lemma_last_slash(p: Seq<char>)
    ensures
        -1 <= last_slash(p) < p.len(),
        last_slash(p) >= 0 ==> p[last_slash(p)] == '/',
        forall|i: int| last_slash(p) < i < p.len() ==> #[trigger] p[i] != '/',
    decreases p.len(),
{
    if p.len() == 0 {
    } else if p.last() == '/' {
    } else {
        let rest = p.drop_last();
        lemma_last_slash(rest);
        assert forall|i: int| last_slash(p) < i < p.len() implies #[trigger] p[i] != '/' by {
            if i < p.len() - 1 {
                assert(p[i] == rest[i]);
            }
        }
    }
}

/// Tidying cuts a path at its end only, leaves nothing to tidy, and leaves
/// a path that has a first character with it.
pub proof fn lemma_tidied(p: Seq<char>)
    ensures
        tidied(p).is_prefix_of(p),
        !ends_blank(tidied(p)),
        tidied(tidied(p)) == tidied(p),
        p.len() > 0 ==> tidied(p).len() > 0,
    decreases p.len(),
{
    if ends_blank(p) {
        let rest = p.drop_last();
        lemma_tidied(rest);
        let t = tidied(rest);
        assert(t =~= p.subrange(0, t.len() as int)) by {
            assert forall|i: int| 0 <= i < t.len() implies t[i] == p[i] by {
                assert(rest.subrange(0, t.len() as int)[i] == rest[i]);
            }
        }
    } else {
        assert(p =~= p.subrange(0, p.len() as int));
    }
}

/// The name of a file holds no slash.
pub proof fn lemma_file_name(p: Seq<char>)
    ensures
        !file_name(p).contains('/'),
        file_name(p).is_suffix_of(tidied(p)),
{
    let path = tidied(p);
    lemma_last_slash(path);
    let name = file_name(p);
    if name.contains('/') {
        let i = choose|i: int| 0 <= i < name.len() && name[i] == '/';
        assert(path[last_slash(path) + 1 + i] == '/');
    }
    assert(name =~= path.subrange(path.len() - name.len(), path.len() as int));
}

/// The directory of a file is a start of the file's path that is rooted
/// where the path is, and has nothing left to tidy.
pub proof fn lemma_parent_dir(p: Seq<char>)
    ensures
        parent_dir(p).is_prefix_of(p),
        parent_dir(p).len() > 0 ==> is_rooted(parent_dir(p)) == is_rooted(p),
        tidied(parent_dir(p)) == parent_dir(p),
        forall|c: char| #[trigger] parent_dir(p).contains(c) ==> p.contains(c),
{
    lemma_tidied(p);
    let path = tidied(p);
    lemma_last_slash(path);
    let i = last_slash(path);
    let dir = parent_dir(p);
    if i < 0 {
        assert(dir =~= p.subrange(0, 0));
    } else {
        let head = if i == 0 {
            path.take(1)
        } else {
            path.take(i)
        };
        lemma_tidied(head);
        assert(tidied(head) == dir);
        assert(dir =~= p.subrange(0, dir.len() as int)) by {
            assert forall|k: int| 0 <= k < dir.len() implies dir[k] == p[k] by {
                assert(head.subrange(0, dir.len() as int)[k] == head[k]);
                assert(path.subrange(0, path.len() as int)[k] == path[k]);
                assert(p.subrange(0, path.len() as int)[k] == p[k]);
            }
        }
        assert(dir[0] == p[0]);
    }
    assert forall|c: char| #[trigger] dir.contains(c) implies p.contains(c) by {
        let k = choose|k: int| 0 <= k < dir.len() && dir[k] == c;
        assert(p.subrange(0, dir.len() as int)[k] == p[k]);
    }
}

/// A file joined to a directory lies in that directory: for a name that is
/// one component, and a directory with nothing left to tidy, the directory
/// of the joined path is the directory, and its file name is the name.
pub proof fn lemma_parent_of_joined(dir: Seq<char>, name: Seq<char>)
    requires
        name.len() > 0,
        !name.contains('/'),
        name != seq!['.'],
        tidied(dir) == dir,
    ensures
        parent_dir(joined(dir, name)) == dir,
        file_name(joined(dir, name)) == name,
{
    let whole = joined(dir, name);
    assert(name.contains(name[0]));
    assert(!is_rooted(name));
    let split: int = if dir.len() == 0 {
        -1
    } else if dir.last() == '/' {
        dir.len() - 1
    } else {
        dir.len() as int
    };
    assert(dir.len() > 0 && dir.last() == '/' ==> dir.len() == 1) by {
        if dir.len() > 1 && dir.last() == '/' {
            assert(ends_blank(dir));
            lemma_tidied(dir.drop_last());
        }
    }
    assert(forall|i: int| split < i < whole.len() ==> whole[i] == name[i - split - 1]);
    assert forall|i: int| split < i < whole.len() implies whole[i] != '/' by {
        assert(name.contains(name[i - split - 1]));
    }
    assert(!ends_blank(whole)) by {
        if whole.len() > 1 && whole.last() == '.' && whole[whole.len() - 2] == '/' {
            assert(whole.len() - 2 == split);
            assert(name =~= seq!['.']);
        }
    }
    lemma_last_slash(whole);
    if split >= 0 {
        assert(whole[split] == '/');
    } else {
        assert(last_slash(whole) < 0) by {
            if last_slash(whole) >= 0 {
                assert(whole[last_slash(whole)] == '/');
            }
        }
    }
    assert(last_slash(whole) == split);
    assert(file_name(whole) =~= name);
    if dir.len() == 0 {
        assert(parent_dir(whole) =~= dir);
    } else if split == 0 {
        assert(whole.take(1) =~= dir);
    } else {
        assert(whole.take(split) =~= dir);
    }
}

/// Joining brings in nothing but a slash: the joined path holds no
/// character that neither the directory nor the relative path holds, but
/// for `/`.
pub proof fn lemma_joined_holds(dir: Seq<char>, rel: Seq<char>)
    ensures
        forall|c: char| #[trigger]
            joined(dir, rel).contains(c) ==> c == '/' || dir.contains(c) || rel.contains(c),
{
    let whole = joined(dir, rel);
    assert forall|c: char| #[trigger] whole.contains(c) implies c == '/' || dir.contains(c)
        || rel.contains(c) by {
        let k = choose|k: int| 0 <= k < whole.len() && whole[k] == c;
        if is_rooted(rel) {
        } else if dir.len() == 0 || dir.last() == '/' {
            if k < dir.len() {
                assert(dir[k] == c);
            } else {
                assert(rel[k - dir.len()] == c);
            }
        } else {
            if k < dir.len() {
                assert(dir[k] == c);
            } else if k > dir.len() {
                assert(rel[k - dir.len() - 1] == c);
            }
        }
    }
}

} // verus!
