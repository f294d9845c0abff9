//! Paths as plain strings.
//!
//! A path is a sequence of components separated by `/`. A first `/` is the
//! root, and a first `.` component stands for the current directory. Behind
//! them, empty components and `.` components count for nothing: `a//b`,
//! `a/./b` and `a/b/` have the components `a` and `b`. Nothing here touches
//! the filesystem.

use crate::text::{chars_of, string_of, string_of_range};
use vstd::prelude::*;
use vstd::string::*;

verus! {

/// Why a path could not be expressed relative to a base directory.
#[derive(Debug, Clone, Copy, PartialEq, Eq, Structural)]
pub enum PathError {
    /// The path does not lie under the base directory.
    NotUnderBase,
}

/// Index of the last occurrence of `c` in `s`, or `-1` when there is none.
pub open spec fn last_index_of(s: Seq<char>, c: char) -> int
    decreases s.len(),
{
    if s.len() == 0 {
        -1
    } else if s.last() == c {
        s.len() - 1
    } else {
        last_index_of(s.drop_last(), c)
    }
}

/// Whether `p` starts at the root.
pub open spec fn has_root(p: Seq<char>) -> bool {
    p.len() > 0 && p[0] == '/'
}

/// Whether the first component of `p` is `.`.
pub open spec fn has_cur_dir(p: Seq<char>) -> bool {
    p.len() > 0 && p[0] == '.' && (p.len() == 1 || p[1] == '/')
}

/// Where the components behind the root or the first `.` start.
pub open spec fn body_start(p: Seq<char>) -> int {
    if has_root(p) || has_cur_dir(p) {
        1
    } else {
        0
    }
}

/// Where the last component of `p` ends: the length of `p` once the
/// separators and the `.` components at its end are gone, but no less than `lo`.
pub open spec fn trim_end(p: Seq<char>, lo: int) -> int
    decreases p.len(),
{
    if p.len() <= lo || p.len() == 0 {
        lo
    } else if p.last() == '/' {
        trim_end(p.drop_last(), lo)
    } else if p.last() == '.' && (p.len() - 1 == lo || p[p.len() - 2] == '/') {
        trim_end(p.drop_last(), lo)
    } else {
        p.len() as int
    }
}

/// Where the next component of `p` starts, from `i` on: behind the
/// separators and the `.` components that stand there. `i` is the start of
/// the components or the end of one.
pub open spec fn skip_front(p: Seq<char>, i: int) -> int
    decreases p.len() - i,
{
    if i < 0 || i >= p.len() {
        p.len() as int
    } else if p[i] == '/' {
        skip_front(p, i + 1)
    } else if p[i] == '.' && (i + 1 == p.len() || p[i + 1] == '/') {
        skip_front(p, i + 1)
    } else {
        i
    }
}

/// Index of the first separator of `p` from `i` on, or the length of `p`.
pub open spec fn next_sep(p: Seq<char>, i: int) -> int
    decreases p.len() - i,
{
    if i < 0 || i >= p.len() {
        p.len() as int
    } else if p[i] == '/' {
        i
    } else {
        next_sep(p, i + 1)
    }
}

/// Where the last component of `p` ends.
pub open spec fn name_end(p: Seq<char>) -> int {
    trim_end(p, body_start(p))
}

/// Where the last component of `p` starts.
pub open spec fn name_start(p: Seq<char>) -> int {
    body_start(p) + last_index_of(p.subrange(body_start(p), name_end(p)), '/') + 1
}

/// The last component of `p`; empty where `p` has no component behind the
/// root or the first `.`.
pub open spec fn final_segment(p: Seq<char>) -> Seq<char> {
    p.subrange(name_start(p), name_end(p))
}

/// A component that names a file or a directory: not empty, not `.`, not `..`.
pub open spec fn is_plain_name(n: Seq<char>) -> bool {
    &&& n.len() > 0
    &&& !(n.len() == 1 && n[0] == '.')
    &&& !(n.len() == 2 && n[0] == '.' && n[1] == '.')
}

/// The name of the file or directory that `p` ends in, if it ends in one.
pub open spec fn plain_name_of(p: Seq<char>) -> Option<Seq<char>> {
    if is_plain_name(final_segment(p)) {
        Some(final_segment(p))
    } else {
        None
    }
}

/// Length of the stem of the name `n`: the name up to its last dot, or the
/// whole name when it has no dot or only a leading one.
pub open spec fn stem_len(n: Seq<char>) -> int {
    let d = last_index_of(n, '.');
    if d <= 0 {
        n.len() as int
    } else {
        d
    }
}

/// The extension of `p`: what follows the last dot of its name. A name
/// without a dot, or with a leading dot only, has none.
pub open spec fn extension_of(p: Seq<char>) -> Option<Seq<char>> {
    let n = final_segment(p);
    let d = last_index_of(n, '.');
    if !is_plain_name(n) || d <= 0 {
        None
    } else {
        Some(n.skip(d + 1))
    }
}

/// `p` with the extension of its name replaced by `ext`; an empty `ext`
/// removes the extension. What stands behind the name is cut off. A path
/// that ends in no name stays as it is.
pub open spec fn with_extension(p: Seq<char>, ext: Seq<char>) -> Seq<char> {
    let n = final_segment(p);
    if !is_plain_name(n) {
        p
    } else {
        let kept = p.take(name_start(p) + stem_len(n));
        if ext.len() == 0 {
            kept
        } else {
            kept.push('.') + ext
        }
    }
}

/// `rel` placed under `base`. A `rel` that starts at the root replaces `base`.
pub open spec fn joined(base: Seq<char>, rel: Seq<char>) -> Seq<char> {
    if rel.len() > 0 && rel[0] == '/' {
        rel
    } else if base.len() == 0 || base.last() == '/' {
        base + rel
    } else {
        base.push('/') + rel
    }
}

/// `p` without its last component. Where `p` has no component behind the
/// root or the first `.`, that is the root itself, or the empty path.
pub open spec fn parent_of(p: Seq<char>) -> Seq<char> {
    if name_end(p) > body_start(p) {
        p.take(trim_end(p.take(name_start(p)), body_start(p)))
    } else if has_root(p) {
        p.take(1)
    } else {
        Seq::empty()
    }
}

/// Matches the components of `base` from `j` on against those of `path`
/// from `i` on. Where every component of `base` has its like in `path`,
/// gives the place in `path` where the last of them ends.
pub open spec fn strip_from(path: Seq<char>, i: int, base: Seq<char>, j: int) -> Option<int>
    decreases base.len() - j,
{
    let i1 = skip_front(path, i);
    let j1 = skip_front(base, j);
    let ie = next_sep(path, i1);
    let je = next_sep(base, j1);
    if j1 >= base.len() {
        Some(i)
    } else if i1 >= path.len() || je <= j || je > base.len() || path.subrange(i1, ie)
        != base.subrange(j1, je) {
        None
    } else {
        strip_from(path, ie, base, je)
    }
}

/// What is left of `path` behind the place `i`, without the separators and
/// `.` components at either end.
pub open spec fn rest_of(path: Seq<char>, i: int) -> Seq<char> {
    let from = skip_front(path, i);
    let to = name_end(path);
    if from >= to {
        Seq::empty()
    } else {
        path.subrange(from, to)
    }
}

/// `path` as seen from `base`, when `path` is `base` itself or lies under
/// it. The two are compared component by component: `/data/models` is not
/// under `/data/mod`, and `/a/./b` is under `/a//`. Where one starts at the
/// root, or with `.`, so must the other, unless `base` is empty.
pub open spec fn relative_to(base: Seq<char>, path: Seq<char>) -> Option<Seq<char>> {
    if base.len() == 0 {
        Some(path.take(name_end(path)))
    } else if has_root(base) != has_root(path) || has_cur_dir(base) != has_cur_dir(path) {
        None
    } else {
        match strip_from(path, body_start(path), base, body_start(base)) {
            Some(i) => Some(rest_of(path, i)),
            None => None,
        }
    }
}

/// An index with the two properties of `last_index_of` is that index.
pub proof fn lemma_last_index_unique(s: Seq<char>, c: char, k: int)
    requires
        -1 <= k < s.len(),
        k >= 0 ==> s[k] == c,
        forall|j: int| k < j < s.len() ==> s[j] != c,
    ensures
        last_index_of(s, c) == k,
    decreases s.len(),
{
    if s.len() > 0 && s.last() != c {
        lemma_last_index_unique(s.drop_last(), c, k);
    }
}

/// `skip_front` and `next_sep` go forward, and not beyond the end.
pub proof fn lemma_front_bounds(p: Seq<char>, i: int)
    requires
        0 <= i <= p.len(),
    ensures
        i <= skip_front(p, i) <= p.len(),
        i <= next_sep(p, i) <= p.len(),
        skip_front(p, i) < p.len() ==> p[skip_front(p, i)] != '/' && next_sep(
            p,
            skip_front(p, i),
        ) > skip_front(p, i),
    decreases p.len() - i,
{
    if i < p.len() {
        lemma_front_bounds(p, i + 1);
    }
}

/// Last index in `cs[lo..hi]` that holds `c`.
fn rfind(cs: &Vec<char>, lo: usize, hi: usize, c: char) -> (r: Option<usize>)
    requires
        lo <= hi <= cs@.len(),
    ensures
        match r {
            Some(i) => lo <= i < hi && last_index_of(cs@.subrange(lo as int, hi as int), c) == i
                - lo,
            None => last_index_of(cs@.subrange(lo as int, hi as int), c) == -1,
        },
{
    let ghost part = cs@.subrange(lo as int, hi as int);
    let mut i: usize = hi;
    while i > lo
        invariant
            lo <= i <= hi <= cs@.len(),
            part == cs@.subrange(lo as int, hi as int),
            forall|j: int| i - lo <= j < part.len() ==> part[j] != c,
        decreases i - lo,
    {
        i = i - 1;
        if cs[i] == c {
            proof {
                lemma_last_index_unique(part, c, i - lo);
            }
            return Some(i);
        }
    }
    proof {
        lemma_last_index_unique(part, c, -1);
    }
    None
}

/// Where the components of `cs` start.
fn body_start_of(cs: &Vec<char>) -> (lo: usize)
    ensures
        lo == body_start(cs@),
        lo <= cs@.len(),
{
    if cs.len() > 0 && (cs[0] == '/' || (cs[0] == '.' && (cs.len() == 1 || cs[1] == '/'))) {
        1
    } else {
        0
    }
}

/// Where the last component of `cs[..hi]` ends, but no less than `lo`.
fn trim_end_of(cs: &Vec<char>, hi: usize, lo: usize) -> (e: usize)
    requires
        lo <= hi <= cs@.len(),
    ensures
        e == trim_end(cs@.take(hi as int), lo as int),
        lo <= e <= hi,
{
    let mut n: usize = hi;
    while n > lo && (cs[n - 1] == '/' || (cs[n - 1] == '.' && (n - 1 == lo || cs[n - 2] == '/')))
        invariant
            lo <= n <= hi <= cs@.len(),
            trim_end(cs@.take(hi as int), lo as int) == trim_end(cs@.take(n as int), lo as int),
        decreases n,
    {
        assert(cs@.take(n as int).drop_last() == cs@.take(n - 1));
        n = n - 1;
    }
    n
}

/// Where the last component of `cs` starts and ends.
fn name_bounds(cs: &Vec<char>) -> (r: (usize, usize))
    ensures
        r.0 == name_start(cs@),
        r.1 == name_end(cs@),
        body_start(cs@) <= r.0 <= r.1 <= cs@.len(),
{
    let lo = body_start_of(cs);
    assert(cs@.take(cs@.len() as int) == cs@);
    let e = trim_end_of(cs, cs.len(), lo);
    let start = match rfind(cs, lo, e, '/') {
        Some(i) => i + 1,
        None => lo,
    };
    (start, e)
}

/// Whether `cs[lo..hi]` is a plain name.
fn plain_name_at(cs: &Vec<char>, lo: usize, hi: usize) -> (r: bool)
    requires
        lo <= hi <= cs@.len(),
    ensures
        r == is_plain_name(cs@.subrange(lo as int, hi as int)),
{
    let n = hi - lo;
    if n == 0 {
        false
    } else if n == 1 {
        cs[lo] != '.'
    } else if n == 2 {
        !(cs[lo] == '.' && cs[lo + 1] == '.')
    } else {
        true
    }
}

/// The last component of `path`; empty where it has none.
pub fn file_name(path: &str) -> (name: String)
    ensures
        name@ == final_segment(path@),
{
    let cs = chars_of(path);
    let (start, end) = name_bounds(&cs);
    string_of_range(&cs, start, end)
}

/// The name of the file or directory that `path` ends in: its last
/// component, unless it has none or that is `..`.
pub fn plain_file_name(path: &str) -> (name: Option<String>)
    ensures
        match name {
            Some(n) => plain_name_of(path@) == Some(n@),
            None => plain_name_of(path@) is None,
        },
{
    let cs = chars_of(path);
    let (start, end) = name_bounds(&cs);
    if plain_name_at(&cs, start, end) {
        Some(string_of_range(&cs, start, end))
    } else {
        None
    }
}

/// The extension of `path`, if its name has one.
pub fn extension(path: &str) -> (ext: Option<String>)
    ensures
        match ext {
            Some(e) => extension_of(path@) == Some(e@),
            None => extension_of(path@) is None,
        },
{
    let cs = chars_of(path);
    let (start, end) = name_bounds(&cs);
    if !plain_name_at(&cs, start, end) {
        return None;
    }
    match rfind(&cs, start, end, '.') {
        Some(d) => {
            if d == start {
                None
            } else {
                let e = string_of_range(&cs, d + 1, end);
                assert(cs@.subrange(d + 1, end as int) == cs@.subrange(
                    start as int,
                    end as int,
                ).skip(d - start + 1));
                Some(e)
            }
        },
        None => None,
    }
}

/// `path` with the extension of its name replaced by `ext`.
pub fn set_extension(path: &str, ext: &str) -> (out: String)
    ensures
        out@ == with_extension(path@, ext@),
{
    let cs = chars_of(path);
    let (start, end) = name_bounds(&cs);
    if !plain_name_at(&cs, start, end) {
        return string_of(&cs);
    }
    let keep = match rfind(&cs, start, end, '.') {
        Some(d) => if d == start {
            end
        } else {
            d
        },
        None => end,
    };
    let mut out = string_of_range(&cs, 0, keep);
    assert(cs@.subrange(0, keep as int) == cs@.take(keep as int));
    if ext.unicode_len() > 0 {
        out.push('.');
        out.append(ext);
    }
    out
}

/// `rel` placed under `base`.
pub fn join(base: &str, rel: &str) -> (out: String)
    ensures
        out@ == joined(base@, rel@),
{
    let r = chars_of(rel);
    if r.len() > 0 && r[0] == '/' {
        return string_of(&r);
    }
    let b = chars_of(base);
    let mut out = string_of(&b);
    if b.len() > 0 && b[b.len() - 1] != '/' {
        out.push('/');
    }
    out.append(rel);
    out
}

/// `path` without its last component.
pub fn parent(path: &str) -> (out: String)
    ensures
        out@ == parent_of(path@),
{
    let cs = chars_of(path);
    let lo = body_start_of(&cs);
    let (start, end) = name_bounds(&cs);
    if end > lo {
        let cut = trim_end_of(&cs, start, lo);
        assert(cs@.subrange(0, cut as int) == cs@.take(cut as int));
        string_of_range(&cs, 0, cut)
    } else if cs.len() > 0 && cs[0] == '/' {
        assert(cs@.subrange(0, 1) == cs@.take(1));
        string_of_range(&cs, 0, 1)
    } else {
        String::new()
    }
}

/// Where the next component of `cs` starts, from `i` on.
fn skip_front_of(cs: &Vec<char>, i: usize) -> (k: usize)
    requires
        i <= cs@.len(),
    ensures
        k == skip_front(cs@, i as int),
        i <= k <= cs@.len(),
{
    let len = cs.len();
    let mut k: usize = i;
    while k < len && (cs[k] == '/' || (cs[k] == '.' && (k + 1 == len || cs[k + 1] == '/')))
        invariant
            i <= k <= len,
            len == cs@.len(),
            skip_front(cs@, i as int) == skip_front(cs@, k as int),
        decreases len - k,
    {
        k = k + 1;
    }
    k
}

/// Index of the first separator of `cs` from `i` on.
fn next_sep_of(cs: &Vec<char>, i: usize) -> (k: usize)
    requires
        i <= cs@.len(),
    ensures
        k == next_sep(cs@, i as int),
        i <= k <= cs@.len(),
{
    let len = cs.len();
    let mut k: usize = i;
    while k < len && cs[k] != '/'
        invariant
            i <= k <= len,
            len == cs@.len(),
            next_sep(cs@, i as int) == next_sep(cs@, k as int),
        decreases len - k,
    {
        k = k + 1;
    }
    k
}

/// Whether `a[i..ie]` and `b[j..je]` hold the same characters.
fn same_range(a: &Vec<char>, i: usize, ie: usize, b: &Vec<char>, j: usize, je: usize) -> (r: bool)
    requires
        i <= ie <= a@.len(),
        j <= je <= b@.len(),
    ensures
        r == (a@.subrange(i as int, ie as int) == b@.subrange(j as int, je as int)),
{
    let ghost x = a@.subrange(i as int, ie as int);
    let ghost y = b@.subrange(j as int, je as int);
    if ie - i != je - j {
        assert(x.len() != y.len());
        return false;
    }
    let n = ie - i;
    let mut k: usize = 0;
    while k < n
        invariant
            k <= n,
            n == ie - i,
            n == je - j,
            i <= ie <= a@.len(),
            j <= je <= b@.len(),
            x == a@.subrange(i as int, ie as int),
            y == b@.subrange(j as int, je as int),
            forall|q: int| 0 <= q < k ==> x[q] == y[q],
        decreases n - k,
    {
        if a[i + k] != b[j + k] {
            assert(x[k as int] != y[k as int]);
            return false;
        }
        k = k + 1;
    }
    assert(x =~= y);
    true
}

/// `path` as seen from the directory `base_path`.
///
/// Fails when `path` is neither `base_path` itself nor below it.
pub fn get_relative_path(base_path: &str, path: &str) -> (r: Result<String, PathError>)
    ensures
        match r {
            Ok(rel) => relative_to(base_path@, path@) == Some(rel@),
            Err(e) => relative_to(base_path@, path@) is None && e == PathError::NotUnderBase,
        },
{
    let b = chars_of(base_path);
    let p = chars_of(path);
    let lp = body_start_of(&p);
    assert(p@.take(p@.len() as int) == p@);
    let end = trim_end_of(&p, p.len(), lp);
    if b.len() == 0 {
        assert(p@.subrange(0, end as int) == p@.take(end as int));
        return Ok(string_of_range(&p, 0, end));
    }
    let lb = body_start_of(&b);
    let base_rooted = b[0] == '/';
    let path_rooted = p.len() > 0 && p[0] == '/';
    if base_rooted != path_rooted || (lb == 1 && !base_rooted) != (lp == 1 && !path_rooted) {
        return Err(PathError::NotUnderBase);
    }
    let mut i: usize = lp;
    let mut j: usize = lb;
    loop
        invariant
            i <= p@.len(),
            j <= b@.len(),
            p@ == path@,
            b@ == base_path@,
            b@.len() > 0,
            lp == body_start(p@),
            lb == body_start(b@),
            end == name_end(p@),
            end <= p@.len(),
            has_root(b@) == has_root(p@),
            has_cur_dir(b@) == has_cur_dir(p@),
            strip_from(p@, lp as int, b@, lb as int) == strip_from(p@, i as int, b@, j as int),
        decreases b@.len() - j,
    {
        let i1 = skip_front_of(&p, i);
        let j1 = skip_front_of(&b, j);
        if j1 >= b.len() {
            let from = skip_front_of(&p, i);
            if from >= end {
                return Ok(String::new());
            }
            return Ok(string_of_range(&p, from, end));
        }
        if i1 >= p.len() {
            return Err(PathError::NotUnderBase);
        }
        let ie = next_sep_of(&p, i1);
        let je = next_sep_of(&b, j1);
        proof {
            lemma_front_bounds(b@, j as int);
        }
        if !same_range(&p, i1, ie, &b, j1, je) {
            return Err(PathError::NotUnderBase);
        }
        i = ie;
        j = je;
    }
}

} // verus!
