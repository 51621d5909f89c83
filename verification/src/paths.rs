//! Windows paths as text. The app runs on Windows against XXMI installs, so its paths use `\` or
//! `/` between components and may begin with a drive such as `C:` or a network share such as
//! `\\server\share`. These functions take paths
//! apart the way `std::path` does on Windows for such paths: `.` components that end a path name
//! no folder of their own and are passed over, and `..` components are kept as they are.

use vstd::prelude::*;
use crate::text::{copy_chars, eq_chars, extend, slice_range};

verus! {

pub open spec fn is_sep(c: char) -> bool {
    c == '/' || c == '\\'
}

/// An ASCII letter, as a drive letter must be.
pub open spec fn is_ascii_alpha(c: char) -> bool {
    ('a' <= c && c <= 'z') || ('A' <= c && c <= 'Z')
}

/// Whether `s` begins with a drive prefix such as `C:`.
pub open spec fn has_drive(s: Seq<char>) -> bool {
    s.len() >= 2 && is_ascii_alpha(s[0]) && s[1] == ':'
}

/// Whether `s` is nothing but a drive prefix.
pub open spec fn is_drive(s: Seq<char>) -> bool {
    has_drive(s) && s.len() == 2
}

/// Whether `s` ends in a `.` component: a `.` right after a separator. Such a component names the
/// folder before it, so it is no component of its own.
pub open spec fn ends_in_dot_component(s: Seq<char>) -> bool {
    s.len() >= 2 && s.last() == '.' && is_sep(s[s.len() - 2])
}

/// `s` without what ends it and names no component: trailing separators and `.` components.
pub open spec fn trim_tail(s: Seq<char>) -> Seq<char>
    decreases s.len(),
{
    if s.len() > 0 && (is_sep(s.last()) || ends_in_dot_component(s)) {
        trim_tail(s.drop_last())
    } else {
        s
    }
}

/// The index of the last separator in `s`.
pub open spec fn last_sep(s: Seq<char>) -> Option<int>
    decreases s.len(),
{
    if s.len() == 0 {
        None
    } else if is_sep(s.last()) {
        Some(s.len() - 1)
    } else {
        last_sep(s.drop_last())
    }
}

/// The index of the last `.` in `s`.
pub open spec fn last_dot(s: Seq<char>) -> Option<int>
    decreases s.len(),
{
    if s.len() == 0 {
        None
    } else if s.last() == '.' {
        Some(s.len() - 1)
    } else {
        last_dot(s.drop_last())
    }
}

/// Whether `s` is, whole, the prefix of a UNC path: `\\`, a server name and, after at most one
/// separator, a share name.
pub open spec fn is_unc_prefix(s: Seq<char>) -> bool {
    &&& s.len() > 2 && s[0] == '\\' && s[1] == '\\'
    &&& forall|i: int, j: int| 2 <= i < j < s.len() && is_sep(#[trigger] s[i]) ==> !is_sep(#[trigger] s[j])
}

/// The path without its last component: `None` for an empty path, a root, a bare drive, or a UNC
/// share such as `\\server\share`. A `.` component names no folder of its own, so those that end
/// the path, or end what is left of it, are passed over. The parent of a single relative
/// component is the empty path; a root, drive root or share root the parent keeps is kept with its
/// separator.
pub open spec fn parent(p: Seq<char>) -> Option<Seq<char>> {
    let q = trim_tail(p);
    if q.len() == 0 || is_drive(q) || is_unc_prefix(q) {
        None
    } else {
        match last_sep(q) {
            None => if has_drive(q) {
                Some(q.take(2))
            } else {
                Some(Seq::empty())
            },
            Some(i) => {
                let h = trim_tail(q.take(i));
                if h.len() == 0 || is_drive(h) || is_unc_prefix(h) {
                    Some(q.take(h.len() + 1 as int))
                } else {
                    Some(h)
                }
            },
        }
    }
}

/// `base` followed by `name`, with a `\` between them unless `base` is empty, already ends in a
/// separator, or is a bare drive.
pub open spec fn join_path(base: Seq<char>, name: Seq<char>) -> Seq<char> {
    if base.len() == 0 {
        name
    } else if is_sep(base.last()) || is_drive(base) {
        base + name
    } else {
        base + seq!['\\'] + name
    }
}

/// The last component of a path, after any trailing `.` components: `None` for an empty path, a
/// root, a bare drive, a UNC share, or a path that ends in `..` or is only `.`.
pub open spec fn file_name(p: Seq<char>) -> Option<Seq<char>> {
    let q = trim_tail(p);
    if q.len() == 0 || is_drive(q) || is_unc_prefix(q) {
        None
    } else {
        let name = match last_sep(q) {
            Some(i) => q.skip(i + 1),
            None => if has_drive(q) {
                q.skip(2)
            } else {
                q
            },
        };
        if name == ".."@ || name == "."@ {
            None
        } else {
            Some(name)
        }
    }
}

/// The file name without its extension: everything before the last `.`, unless that `.` is the
/// first character.
pub open spec fn file_stem(p: Seq<char>) -> Option<Seq<char>> {
    match file_name(p) {
        Some(name) => match last_dot(name) {
            Some(j) => if j > 0 {
                Some(name.take(j))
            } else {
                Some(name)
            },
            None => Some(name),
        },
        None => None,
    }
}

/// The file name's extension: everything after the last `.`, unless that `.` is the first
/// character or there is none.
pub open spec fn extension(p: Seq<char>) -> Option<Seq<char>> {
    match file_name(p) {
        Some(name) => match last_dot(name) {
            Some(j) => if j > 0 {
                Some(name.skip(j + 1))
            } else {
                None
            },
            None => None,
        },
        None => None,
    }
}

/// Index of the first separator in `p`, or `p.len()` when there is none.
pub open spec fn sep_index(p: Seq<char>) -> int
    decreases p.len(),
{
    if p.len() == 0 || is_sep(p[0]) {
        0
    } else {
        1 + sep_index(p.drop_first())
    }
}

/// The names between separators, in order, without empty names and without `.`.
pub open spec fn segments(p: Seq<char>) -> Seq<Seq<char>>
    decreases p.len(),
{
    if p.len() == 0 {
        Seq::empty()
    } else if is_sep(p[0]) {
        segments(p.drop_first())
    } else {
        let j = sep_index(p);
        proof {
            lemma_sep_index(p);
        }
        let rest = segments(p.skip(j));
        if p.take(j) == "."@ {
            rest
        } else {
            seq![p.take(j)] + rest
        }
    }
}

/// The segments of `p` after those of `base`, when `base`'s segments begin `p`'s.
pub open spec fn strip_prefix(p: Seq<char>, base: Seq<char>) -> Option<Seq<Seq<char>>> {
    let ps = segments(p);
    let bs = segments(base);
    if bs.len() <= ps.len() && ps.take(bs.len() as int) == bs {
        Some(ps.skip(bs.len() as int))
    } else {
        None
    }
}

pub proof fn lemma_sep_index(p: Seq<char>)
    ensures
        0 <= sep_index(p) <= p.len(),
        forall|k: int| 0 <= k < sep_index(p) ==> !is_sep(p[k]),
        sep_index(p) < p.len() ==> is_sep(p[sep_index(p)]),
    decreases p.len(),
{
    if p.len() > 0 && !is_sep(p[0]) {
        lemma_sep_index(p.drop_first());
        assert forall|k: int| 0 <= k < sep_index(p) implies !is_sep(p[k]) by {
            if k > 0 {
                assert(p[k] == p.drop_first()[k - 1]);
            }
        }
    }
}

pub proof fn lemma_sep_index_is(p: Seq<char>, j: int)
    requires
        0 <= j <= p.len(),
        forall|k: int| 0 <= k < j ==> !is_sep(p[k]),
        j < p.len() ==> is_sep(p[j]),
    ensures
        sep_index(p) == j,
    decreases p.len(),
{
    if p.len() > 0 && j > 0 {
        lemma_sep_index_is(p.drop_first(), j - 1);
    }
}

/// The names between separators.
pub fn segments_chars(p: &[char]) -> (r: Vec<Vec<char>>)
    ensures
        crate::text::views(r@) == segments(p@),
{
    let n = p.len();
    let mut out: Vec<Vec<char>> = Vec::new();
    let mut i: usize = 0;
    let dot = vec!['.'];
    assert(dot@ == "."@) by {
        reveal_strlit(".");
    }
    assert(p@.skip(0) == p@);
    while i < n
        invariant
            i <= n == p@.len(),
            dot@ == "."@,
            crate::text::views(out@) + segments(p@.skip(i as int)) == segments(p@),
        decreases n - i,
    {
        let ghost rest = p@.skip(i as int);
        if is_sep_char(p[i]) {
            assert(rest.drop_first() == p@.skip(i + 1));
            i += 1;
        } else {
            let mut j = i;
            while j < n && !is_sep_char(p[j])
                invariant
                    i <= j <= n == p@.len(),
                    forall|k: int| i <= k < j ==> !is_sep(p@[k]),
                decreases n - j,
            {
                j += 1;
            }
            proof {
                lemma_sep_index_is(rest, j - i);
                assert(rest.take(j - i) == p@.subrange(i as int, j as int));
                assert(rest.skip(j - i) == p@.skip(j as int));
            }
            let seg = slice_range(p, i, j);
            if !eq_chars(seg.as_slice(), dot.as_slice()) {
                let ghost before = crate::text::views(out@);
                out.push(seg);
                assert(crate::text::views(out@) == before.push(p@.subrange(i as int, j as int)));
            }
            i = j;
        }
    }
    assert(p@.skip(n as int) == Seq::<char>::empty());
    out
}

proof fn lemma_trim_tail_shape(s: Seq<char>)
    ensures
        trim_tail(s).len() <= s.len(),
        trim_tail(s) == s.take(trim_tail(s).len() as int),
        trim_tail(s).len() == 0 || !is_sep(trim_tail(s).last()),
    decreases s.len(),
{
    if s.len() > 0 && (is_sep(s.last()) || ends_in_dot_component(s)) {
        lemma_trim_tail_shape(s.drop_last());
        assert(s.drop_last().take(trim_tail(s).len() as int) == s.take(
            trim_tail(s).len() as int,
        ));
    } else {
        assert(s.take(s.len() as int) == s);
    }
}

proof fn lemma_last_in(s: Seq<char>, sep: bool)
    ensures
        sep ==> (last_sep(s) matches Some(i) ==> 0 <= i < s.len() && is_sep(s[i])),
        !sep ==> (last_dot(s) matches Some(i) ==> 0 <= i < s.len() && s[i] == '.'),
    decreases s.len(),
{
    if s.len() > 0 {
        lemma_last_in(s.drop_last(), sep);
    }
}

/// Where the last separator stands: none after it, and none at all when there is no last one.
pub proof fn lemma_last_sep_facts(s: Seq<char>)
    ensures
        last_sep(s) matches Some(i) ==> 0 <= i < s.len() && is_sep(s[i]) && forall|j: int|
            i < j < s.len() ==> !is_sep(#[trigger] s[j]),
        last_sep(s) is None ==> forall|j: int| 0 <= j < s.len() ==> !is_sep(#[trigger] s[j]),
    decreases s.len(),
{
    if s.len() > 0 && !is_sep(s.last()) {
        let d = s.drop_last();
        lemma_last_sep_facts(d);
        assert(last_sep(s) == last_sep(d));
        if let Some(i) = last_sep(d) {
            assert(s[i] == d[i]);
            assert forall|j: int| i < j < s.len() implies !is_sep(#[trigger] s[j]) by {
                if j < s.len() - 1 {
                    assert(s[j] == d[j]);
                }
            }
        } else {
            assert forall|j: int| 0 <= j < s.len() implies !is_sep(#[trigger] s[j]) by {
                if j < s.len() - 1 {
                    assert(s[j] == d[j]);
                }
            }
        }
    }
}

/// A relative path written plainly: it neither begins nor ends with a separator, holds no drive,
/// and each separator stands alone and starts no `.` component.
pub open spec fn plain_path(p: Seq<char>) -> bool {
    &&& p.len() > 0
    &&& !is_sep(p[0]) && !is_sep(p.last())
    &&& !(p.len() >= 2 && p[1] == ':')
    &&& forall|j: int|
        0 <= j < p.len() - 1 && is_sep(#[trigger] p[j]) ==> !is_sep(p[j + 1]) && !(p[j + 1] == '.' && (j
            + 2 == p.len() || is_sep(p[j + 2])))
}

/// The parent of a plain path is everything before its last separator, or the empty path when it
/// has none.
pub proof fn lemma_parent_of_plain(p: Seq<char>)
    requires
        plain_path(p),
    ensures
        last_sep(p) matches Some(i) ==> parent(p) == Some(p.take(i)),
        last_sep(p) is None ==> parent(p) == Some(Seq::<char>::empty()),
{
    lemma_last_sep_facts(p);
    let n = p.len();
    if n >= 2 && p.last() == '.' && is_sep(p[n - 2]) {
        assert(is_sep(p[n - 2]));
    }
    assert(!ends_in_dot_component(p));
    assert(trim_tail(p) == p);
    if let Some(i) = last_sep(p) {
        let t = p.take(i);
        assert(i > 0);
        assert(t.last() == p[i - 1]);
        if is_sep(p[i - 1]) {
            assert(is_sep(p[i - 1]));
        }
        if i >= 2 {
            assert(t[t.len() - 2] == p[i - 2]);
            if p[i - 1] == '.' && is_sep(p[i - 2]) {
                assert(is_sep(p[i - 2]));
            }
        }
        assert(!ends_in_dot_component(t));
        assert(trim_tail(t) == t);
        if i >= 2 {
            assert(t[1] == p[1]);
        }
        assert(t[0] == p[0]);
    }
}

pub fn is_sep_char(c: char) -> (b: bool)
    ensures
        b == is_sep(c),
{
    c == '/' || c == '\\'
}

fn is_drive_chars(s: &[char]) -> (b: bool)
    ensures
        b == is_drive(s@),
        has_drive(s@) == (s@.len() >= 2 && ((s@[0] >= 'a' && s@[0] <= 'z') || (s@[0] >= 'A'
            && s@[0] <= 'Z')) && s@[1] == ':'),
{
    s.len() == 2 && has_drive_chars(s)
}

fn is_unc_prefix_chars(s: &[char]) -> (b: bool)
    ensures
        b == is_unc_prefix(s@),
{
    if !(s.len() > 2 && s[0] == '\\' && s[1] == '\\') {
        return false;
    }
    let n = s.len();
    let mut seen = false;
    let mut i: usize = 2;
    while i < n
        invariant
            2 <= i <= n == s@.len(),
            s@[0] == '\\' && s@[1] == '\\',
            seen == exists|k: int| 2 <= k < i && is_sep(s@[k]),
            forall|a: int, b: int| 2 <= a < b < i && is_sep(#[trigger] s@[a]) ==> !is_sep(#[trigger] s@[b]),
        decreases n - i,
    {
        if is_sep_char(s[i]) {
            if seen {
                return false;
            }
            seen = true;
        }
        i += 1;
    }
    true
}

fn has_drive_chars(s: &[char]) -> (b: bool)
    ensures
        b == has_drive(s@),
{
    s.len() >= 2 && ((s[0] >= 'a' && s[0] <= 'z') || (s[0] >= 'A' && s[0] <= 'Z')) && s[1] == ':'
}

/// `s` without trailing separators and `.` components.
pub fn trim_tail_chars(s: &[char]) -> (r: Vec<char>)
    ensures
        r@ == trim_tail(s@),
{
    let mut k = s.len();
    assert(s@.take(k as int) == s@);
    while k > 0 && (is_sep_char(s[k - 1]) || (k >= 2 && s[k - 1] == '.' && is_sep_char(s[k - 2])))
        invariant
            k <= s@.len(),
            trim_tail(s@) == trim_tail(s@.take(k as int)),
        decreases k,
    {
        assert(s@.take(k as int).drop_last() == s@.take(k - 1));
        proof {
            let t = s@.take(k as int);
            assert(t.last() == s@[k - 1]);
            if k >= 2 {
                assert(t[t.len() - 2] == s@[k - 2]);
            }
        }
        k -= 1;
    }
    proof {
        let t = s@.take(k as int);
        if k > 0 {
            assert(t.last() == s@[k - 1]);
        }
        if k >= 2 {
            assert(t[t.len() - 2] == s@[k - 2]);
        }
    }
    slice_range(s, 0, k)
}

/// The index of the last separator in `s`.
pub fn last_sep_chars(s: &[char]) -> (r: Option<usize>)
    ensures
        match r {
            Some(i) => last_sep(s@) == Some(i as int),
            None => last_sep(s@) is None,
        },
{
    let mut k = s.len();
    assert(s@.take(k as int) == s@);
    while k > 0
        invariant
            k <= s@.len(),
            last_sep(s@) == last_sep(s@.take(k as int)),
        decreases k,
    {
        assert(s@.take(k as int).drop_last() == s@.take(k - 1));
        if is_sep_char(s[k - 1]) {
            return Some(k - 1);
        }
        k -= 1;
    }
    None
}

/// The index of the last `.` in `s`.
pub fn last_dot_chars(s: &[char]) -> (r: Option<usize>)
    ensures
        match r {
            Some(i) => last_dot(s@) == Some(i as int),
            None => last_dot(s@) is None,
        },
{
    let mut k = s.len();
    assert(s@.take(k as int) == s@);
    while k > 0
        invariant
            k <= s@.len(),
            last_dot(s@) == last_dot(s@.take(k as int)),
        decreases k,
    {
        assert(s@.take(k as int).drop_last() == s@.take(k - 1));
        if s[k - 1] == '.' {
            return Some(k - 1);
        }
        k -= 1;
    }
    None
}

/// The path without its last component.
pub fn parent_chars(p: &[char]) -> (r: Option<Vec<char>>)
    ensures
        match r {
            Some(v) => parent(p@) == Some(v@),
            None => parent(p@) is None,
        },
{
    let q = trim_tail_chars(p);
    if q.len() == 0 || is_drive_chars(q.as_slice()) || is_unc_prefix_chars(q.as_slice()) {
        return None;
    }
    match last_sep_chars(q.as_slice()) {
        None => {
            if has_drive_chars(q.as_slice()) {
                Some(slice_range(q.as_slice(), 0, 2))
            } else {
                Some(Vec::new())
            }
        },
        Some(i) => {
            proof {
                lemma_last_in(q@, true);
            }
            let head = slice_range(q.as_slice(), 0, i);
            let h = trim_tail_chars(head.as_slice());
            proof {
                lemma_trim_tail_shape(head@);
            }
            if h.len() == 0 || is_drive_chars(h.as_slice()) || is_unc_prefix_chars(h.as_slice()) {
                Some(slice_range(q.as_slice(), 0, h.len() + 1))
            } else {
                Some(h)
            }
        },
    }
}

/// `base` followed by `name`, separated as Windows joins paths.
pub fn join_path_chars(base: &[char], name: &[char]) -> (r: Vec<char>)
    ensures
        r@ == join_path(base@, name@),
{
    let mut out = copy_chars(base);
    if base.len() == 0 {
        return copy_chars(name);
    }
    if !(is_sep_char(base[base.len() - 1]) || is_drive_chars(base)) {
        out.push('\\');
    }
    extend(&mut out, name);
    out
}

/// The last component of a path.
pub fn file_name_chars(p: &[char]) -> (r: Option<Vec<char>>)
    ensures
        match r {
            Some(v) => file_name(p@) == Some(v@),
            None => file_name(p@) is None,
        },
{
    let q = trim_tail_chars(p);
    if q.len() == 0 || is_drive_chars(q.as_slice()) || is_unc_prefix_chars(q.as_slice()) {
        return None;
    }
    let len = q.len();
    let name = match last_sep_chars(q.as_slice()) {
        Some(i) => {
            proof {
                lemma_last_in(q@, true);
            }
            slice_range(q.as_slice(), i + 1, len)
        },
        None => if has_drive_chars(q.as_slice()) {
            slice_range(q.as_slice(), 2, len)
        } else {
            copy_chars(q.as_slice())
        },
    };
    let dots = vec!['.', '.'];
    let dot = vec!['.'];
    assert(dots@ == ".."@) by {
        reveal_strlit("..");
    }
    assert(dot@ == "."@) by {
        reveal_strlit(".");
    }
    if crate::text::eq_chars(name.as_slice(), dots.as_slice()) || crate::text::eq_chars(name.as_slice(), dot.as_slice()) {
        None
    } else {
        Some(name)
    }
}

/// The file name without its extension.
pub fn file_stem_chars(p: &[char]) -> (r: Option<Vec<char>>)
    ensures
        match r {
            Some(v) => file_stem(p@) == Some(v@),
            None => file_stem(p@) is None,
        },
{
    match file_name_chars(p) {
        Some(name) => match last_dot_chars(name.as_slice()) {
            Some(j) => {
                proof {
                    lemma_last_in(name@, false);
                }
                if j > 0 {
                    Some(slice_range(name.as_slice(), 0, j))
                } else {
                    Some(name)
                }
            },
            None => Some(name),
        },
        None => None,
    }
}

/// The file name's extension.
pub fn extension_chars(p: &[char]) -> (r: Option<Vec<char>>)
    ensures
        match r {
            Some(v) => extension(p@) == Some(v@),
            None => extension(p@) is None,
        },
{
    match file_name_chars(p) {
        Some(name) => match last_dot_chars(name.as_slice()) {
            Some(j) => {
                proof {
                    lemma_last_in(name@, false);
                }
                assert(j < name.len());
                if j > 0 {
                    Some(slice_range(name.as_slice(), j + 1, name.len()))
                } else {
                    None
                }
            },
            None => None,
        },
        None => None,
    }
}

/// The segments of `p` after those of `base`, when `base`'s segments begin `p`'s.
pub fn strip_prefix_chars(p: &[char], base: &[char]) -> (r: Option<Vec<Vec<char>>>)
    ensures
        match r {
            Some(v) => strip_prefix(p@, base@) == Some(crate::text::views(v@)),
            None => strip_prefix(p@, base@) is None,
        },
{
    let ps = segments_chars(p);
    let bs = segments_chars(base);
    let ghost pv = crate::text::views(ps@);
    let ghost bv = crate::text::views(bs@);
    if bs.len() > ps.len() {
        return None;
    }
    let m = bs.len();
    for i in 0..m
        invariant
            m == bv.len() <= pv.len(),
            pv == segments(p@),
            bv == segments(base@),
            pv == crate::text::views(ps@),
            bv == crate::text::views(bs@),
            forall|k: int| 0 <= k < i ==> pv[k] == bv[k],
    {
        if !eq_chars(ps[i].as_slice(), bs[i].as_slice()) {
            assert(pv.take(m as int)[i as int] != bv[i as int]);
            assert(pv.take(m as int) != bv);
            return None;
        }
    }
    assert(pv.take(m as int) == bv);
    let mut rest: Vec<Vec<char>> = Vec::new();
    let n = ps.len();
    let mut i = m;
    while i < n
        invariant
            m <= i <= n == pv.len(),
            pv == crate::text::views(ps@),
            crate::text::views(rest@) == pv.subrange(m as int, i as int),
        decreases n - i,
    {
        let ghost before = crate::text::views(rest@);
        rest.push(copy_chars(ps[i].as_slice()));
        assert(crate::text::views(rest@) == before.push(pv[i as int]));
        assert(pv.subrange(m as int, i + 1) == pv.subrange(m as int, i as int).push(pv[i as int]));
        i += 1;
    }
    assert(pv.subrange(m as int, n as int) == pv.skip(m as int));
    Some(rest)
}

} // verus!
