//! What an import learns from a mod archive's listing before anything is unpacked: the entries in
//! path order, which folders are likely mod roots (a folder that directly holds an `.ini`), the
//! preview picture inside the first of them, which `.ini` to read its metadata from, and what
//! that metadata says. Reading the archive itself happens outside; this works on the listing.

use vstd::prelude::*;
use crate::image_format::{lemma_lex_irreflexive, lemma_lex_total, lemma_lex_transitive, lex_lt, lex_lt_chars};
use crate::paths::{extension, extension_chars, file_name, file_name_chars, file_stem, file_stem_chars, join_path, join_path_chars, parent, parent_chars, is_sep, plain_path, last_sep, lemma_last_sep_facts, lemma_parent_of_plain};
use crate::text::{chars_of, ends_with, ends_with_chars, eq_chars, eq_ignore_ascii_case, eq_ignore_ascii_case_chars, extend, lowercase, starts_with, starts_with_chars, string_of, to_lowercase, trim, trim_chars};

verus! {

/// One file or folder listed in an archive.
#[derive(Clone, Debug)]
pub struct ArchiveEntry {
    pub path: String,
    pub is_dir: bool,
    pub is_likely_mod_root: bool,
}

/// What an archive's listing says about the mod inside it.
#[derive(Clone, Debug)]
pub struct ArchiveAnalysis {
    pub file_path: String,
    pub entries: Vec<ArchiveEntry>,
    pub deduced_name: Option<String>,
    pub deduced_author: Option<String>,
    pub deduced_agent_id: Option<i64>,
    pub deduced_category_id: Option<i64>,
    pub deduced_category_item_id: Option<i64>,
    pub detected_preview_internal_path: Option<String>,
}

/// What the user chose for an archive about to be imported.
#[derive(Clone, Debug)]
pub struct ImportRequest {
    pub agent_id: Option<i64>,
    pub category_id: Option<i64>,
    pub category_item_id: Option<i64>,
    pub selected_internal_root: Option<String>,
    pub mod_name: String,
    pub author: Option<String>,
}

/// `s` with every `\` turned into `/`, as archive paths are compared.
pub open spec fn forward_slashes(s: Seq<char>) -> Seq<char> {
    Seq::new(s.len(), |i: int| if s[i] == '\\' { '/' } else { s[i] })
}

/// `v` with every `\` turned into `/`.
pub fn forward_slashes_chars(v: &[char]) -> (r: Vec<char>)
    ensures
        r@ == forward_slashes(v@),
{
    let mut out: Vec<char> = Vec::new();
    let n = v.len();
    for i in 0..n
        invariant
            n == v@.len(),
            out@ == forward_slashes(v@).take(i as int),
    {
        let c = v[i];
        if c == '\\' {
            out.push('/');
        } else {
            out.push(c);
        }
        assert(forward_slashes(v@).take(i + 1) == forward_slashes(v@).take(i as int).push(
            forward_slashes(v@)[i as int],
        ));
    }
    assert(forward_slashes(v@).take(n as int) == forward_slashes(v@));
    out
}

/// An archive path with `/` between its components.
pub fn entry_path(raw: &str) -> (r: String)
    ensures
        r@ == forward_slashes(raw@),
{
    let cs = chars_of(raw);
    let out = forward_slashes_chars(cs.as_slice());
    string_of(out.as_slice())
}

/// A file whose name ends in `.ini`, in any case.
pub open spec fn is_ini_file(path: Seq<char>, is_dir: bool) -> bool {
    !is_dir && ends_with(lowercase(path), ".ini"@)
}

/// Whether a listed entry is an `.ini` file, the files whose contents are read along with the
/// listing.
pub fn is_ini_entry(path: &str, is_dir: bool) -> (b: bool)
    ensures
        b == is_ini_file(path@, is_dir),
{
    if is_dir {
        return false;
    }
    let lowered = to_lowercase(path);
    let lc = chars_of(lowered.as_str());
    let ext = chars_of(".ini");
    ends_with_chars(lc.as_slice(), ext.as_slice())
}

/// Entries in path order: no entry's path comes before the one of an entry ahead of it.
pub open spec fn sorted_by_path(v: Seq<ArchiveEntry>) -> bool {
    forall|i: int, j: int| 0 <= i < j < v.len() ==> !lex_lt(#[trigger] v[j].path@, #[trigger] v[i].path@)
}

proof fn lemma_insert_to_multiset<A>(s: Seq<A>, p: int, a: A)
    requires
        0 <= p <= s.len(),
    ensures
        s.insert(p, a).to_multiset() == s.to_multiset().insert(a),
{
    broadcast use vstd::seq_lib::group_to_multiset_ensures;
    let t = s.insert(p, a);
    assert(t.remove(p) == s);
    assert(t[p] == a);
    assert(t.to_multiset().count(a) > 0);
    assert(t.to_multiset() =~= s.to_multiset().insert(a));
}

/// The entries sorted by path, each exactly once. Entries with the same path may come in either
/// order.
pub fn sort_entries(entries: Vec<ArchiveEntry>) -> (r: Vec<ArchiveEntry>)
    ensures
        r@.to_multiset() == entries@.to_multiset(),
        sorted_by_path(r@),
{
    broadcast use vstd::seq_lib::group_to_multiset_ensures;
    let mut rest = entries;
    let mut out: Vec<ArchiveEntry> = Vec::new();
    while rest.len() > 0
        invariant
            out@.to_multiset().add(rest@.to_multiset()) == entries@.to_multiset(),
            sorted_by_path(out@),
        decreases rest.len(),
    {
        let ghost before_rest = rest@;
        let e = rest.pop().unwrap();
        assert(before_rest == rest@.push(e));
        let key = chars_of(e.path.as_str());
        let m = out.len();
        let mut p: usize = m;
        while p > 0 && lex_lt_chars(key.as_slice(), chars_of(out[p - 1].path.as_str()).as_slice())
            invariant
                p <= m == out@.len(),
                key@ == e.path@,
                forall|q: int| p <= q < m ==> lex_lt(key@, #[trigger] out@[q].path@),
            decreases p,
        {
            p -= 1;
        }
        let ghost v = out@;
        proof {
            rest@.to_multiset_ensures();
            assert(before_rest.to_multiset() =~= rest@.to_multiset().insert(e));
            if p > 0 {
                lemma_lex_total(key@, v[p - 1].path@);
            }
        }
        out.insert(p, e);
        proof {
            lemma_insert_to_multiset(v, p as int, e);
            assert(out@.to_multiset().add(rest@.to_multiset()) =~= v.to_multiset().add(
                before_rest.to_multiset(),
            ));
            let w = out@;
            assert(w == v.insert(p as int, e));
            assert forall|a: int, b: int| 0 <= a < b < w.len() implies !lex_lt(#[trigger] w[b].path@, #[trigger] w[a].path@) by {
                if b < p {
                    assert(w[a] == v[a] && w[b] == v[b]);
                } else if b == p {
                    assert(w[a] == v[a]);
                    if a < p - 1 {
                        assert(!lex_lt(v[p - 1].path@, v[a].path@));
                        if lex_lt(key@, v[a].path@) {
                            lemma_lex_total(v[p - 1].path@, v[a].path@);
                            if v[p - 1].path@ == v[a].path@ {
                            } else {
                                lemma_lex_transitive(key@, v[a].path@, v[p - 1].path@);
                            }
                        }
                    }
                } else if a == p {
                    assert(w[b] == v[b - 1]);
                    lemma_lex_total(key@, v[b - 1].path@);
                } else if a < p {
                    assert(w[a] == v[a] && w[b] == v[b - 1]);
                } else {
                    assert(w[a] == v[a - 1] && w[b] == v[b - 1]);
                }
            }
        }
    }
    assert(rest@.to_multiset() =~= vstd::multiset::Multiset::empty());
    out
}

/// `s` without the `/` characters at its end.
pub open spec fn trim_slashes_end(s: Seq<char>) -> Seq<char>
    decreases s.len(),
{
    if s.len() > 0 && s.last() == '/' {
        trim_slashes_end(s.drop_last())
    } else {
        s
    }
}

/// The folder an entry sits in, as folder entries are compared with it: its parent with `/`
/// separators, or `None` for an entry at the top of the archive.
pub open spec fn folder_of(path: Seq<char>) -> Option<Seq<char>> {
    match parent(path) {
        Some(p) => if forward_slashes(p).len() == 0 {
            None
        } else {
            Some(forward_slashes(p))
        },
        None => None,
    }
}

/// The first folder entry at or after `j` whose path, without trailing `/`, is `folder`.
pub open spec fn folder_entry_from(v: Seq<ArchiveEntry>, folder: Seq<char>, j: int) -> Option<int>
    decreases v.len() - j,
{
    if j < 0 || j >= v.len() {
        None
    } else if v[j].is_dir && trim_slashes_end(v[j].path@) == folder {
        Some(j)
    } else {
        folder_entry_from(v, folder, j + 1)
    }
}

/// The folder entry that entry `i`, when it is an `.ini` file, marks as a likely mod root.
pub open spec fn root_marked_by(v: Seq<ArchiveEntry>, i: int) -> Option<int> {
    if is_ini_file(v[i].path@, v[i].is_dir) {
        match folder_of(v[i].path@) {
            Some(f) => folder_entry_from(v, f, 0),
            None => None,
        }
    } else {
        None
    }
}

/// A likely mod root: a folder entry that directly holds an `.ini` file of the listing.
pub open spec fn is_likely_root(v: Seq<ArchiveEntry>, k: int) -> bool {
    exists|i: int| 0 <= i < v.len() && root_marked_by(v, i) == Some(k)
}

fn trim_slashes_end_chars(s: &[char]) -> (r: Vec<char>)
    ensures
        r@ == trim_slashes_end(s@),
{
    let mut hi = s.len();
    assert(s@.take(s@.len() as int) == s@);
    while hi > 0 && s[hi - 1] == '/'
        invariant
            hi <= s@.len(),
            trim_slashes_end(s@) == trim_slashes_end(s@.take(hi as int)),
        decreases hi,
    {
        assert(s@.take(hi as int).drop_last() == s@.take(hi - 1));
        hi -= 1;
    }
    let r = crate::text::slice_range(s, 0, hi);
    assert(r@ == s@.take(hi as int));
    r
}

/// The first folder entry whose path, without trailing `/`, is `folder`.
fn find_folder_entry(v: &Vec<ArchiveEntry>, folder: &[char]) -> (r: Option<usize>)
    ensures
        match r {
            Some(k) => folder_entry_from(v@, folder@, 0) == Some(k as int),
            None => folder_entry_from(v@, folder@, 0) is None,
        },
{
    let n = v.len();
    let mut j: usize = 0;
    while j < n
        invariant
            j <= n == v@.len(),
            folder_entry_from(v@, folder@, 0) == folder_entry_from(v@, folder@, j as int),
        decreases n - j,
    {
        if v[j].is_dir {
            let p = chars_of(v[j].path.as_str());
            let t = trim_slashes_end_chars(p.as_slice());
            if eq_chars(t.as_slice(), folder) {
                return Some(j);
            }
        }
        j += 1;
    }
    None
}

/// The folder entry that entry `i` marks as a likely mod root.
fn root_marked_by_exec(v: &Vec<ArchiveEntry>, i: usize) -> (r: Option<usize>)
    requires
        i < v@.len(),
    ensures
        match r {
            Some(k) => root_marked_by(v@, i as int) == Some(k as int),
            None => root_marked_by(v@, i as int) is None,
        },
{
    if !is_ini_entry(v[i].path.as_str(), v[i].is_dir) {
        return None;
    }
    let p = chars_of(v[i].path.as_str());
    match parent_chars(p.as_slice()) {
        Some(par) => {
            let f = forward_slashes_chars(par.as_slice());
            if f.len() == 0 {
                None
            } else {
                find_folder_entry(v, f.as_slice())
            }
        },
        None => None,
    }
}

/// Entry `q` with its likely-root mark set when it is a likely mod root.
pub open spec fn marked_entry(v: Seq<ArchiveEntry>, q: int) -> ArchiveEntry {
    ArchiveEntry {
        path: v[q].path,
        is_dir: v[q].is_dir,
        is_likely_mod_root: v[q].is_likely_mod_root || is_likely_root(v, q),
    }
}

/// The listing with every likely mod root marked; nothing else changes.
pub open spec fn marked_entries(v: Seq<ArchiveEntry>) -> Seq<ArchiveEntry> {
    Seq::new(v.len(), |q: int| marked_entry(v, q))
}

/// The entries with every likely mod root marked; nothing else changes, and a mark already set
/// stays.
pub fn mark_likely_roots(entries: Vec<ArchiveEntry>) -> (r: Vec<ArchiveEntry>)
    ensures
        r@ == marked_entries(entries@),
{
    let n = entries.len();
    let mut flags: Vec<bool> = Vec::new();
    for k in 0..n
        invariant
            flags@.len() == k,
            forall|q: int| 0 <= q < k ==> !flags@[q],
    {
        flags.push(false);
    }
    for i in 0..n
        invariant
            n == entries@.len() == flags@.len(),
            forall|k: int|
                0 <= k < n ==> #[trigger] flags@[k] == exists|q: int|
                    0 <= q < i && root_marked_by(entries@, q) == Some(k),
    {
        match root_marked_by_exec(&entries, i) {
            Some(k) => {
                proof {
                    crate::archive::lemma_folder_entry_in_range(entries@, i as int);
                }
                flags.set(k, true);
                assert forall|k2: int| 0 <= k2 < n implies #[trigger] flags@[k2] == exists|q: int|
                    0 <= q < i + 1 && root_marked_by(entries@, q) == Some(k2) by {
                    if k2 == k {
                        assert(root_marked_by(entries@, i as int) == Some(k2));
                    } else {
                        if exists|q: int| 0 <= q < i + 1 && root_marked_by(entries@, q) == Some(k2) {
                            let q = choose|q: int| 0 <= q < i + 1 && root_marked_by(entries@, q) == Some(k2);
                            assert(q < i);
                        }
                    }
                }
            },
            None => {
                assert forall|k2: int| 0 <= k2 < n implies #[trigger] flags@[k2] == exists|q: int|
                    0 <= q < i + 1 && root_marked_by(entries@, q) == Some(k2) by {
                    if exists|q: int| 0 <= q < i + 1 && root_marked_by(entries@, q) == Some(k2) {
                        let q = choose|q: int| 0 <= q < i + 1 && root_marked_by(entries@, q) == Some(k2);
                        assert(q < i);
                    }
                }
            },
        }
    }
    let ghost orig = entries@;
    let mut rest = entries;
    let mut out: Vec<ArchiveEntry> = Vec::new();
    let mut k: usize = 0;
    while k < n
        invariant
            n == orig.len() == flags@.len(),
            k <= n,
            out@.len() == k,
            rest@ == orig.skip(k as int),
            forall|k2: int| 0 <= k2 < n ==> #[trigger] flags@[k2] == is_likely_root(orig, k2),
            out@ == marked_entries(orig).take(k as int),
        decreases n - k,
    {
        let e = rest.remove(0);
        assert(e == orig[k as int]);
        assert(rest@ == orig.skip(k + 1));
        let mark = e.is_likely_mod_root || flags[k];
        out.push(ArchiveEntry { path: e.path, is_dir: e.is_dir, is_likely_mod_root: mark });
        assert(marked_entries(orig).take(k + 1) == marked_entries(orig).take(k as int).push(
            marked_entry(orig, k as int),
        ));
        k += 1;
    }
    assert(marked_entries(orig).take(n as int) == marked_entries(orig));
    out
}

/// A folder entry an `.ini` file marks lies in the listing.
pub proof fn lemma_folder_entry_in_range(v: Seq<ArchiveEntry>, i: int)
    ensures
        root_marked_by(v, i) matches Some(k) ==> 0 <= k < v.len(),
{
    if let Some(f) = folder_of(v[i].path@) {
        lemma_folder_entry_from_range(v, f, 0);
    }
}

proof fn lemma_folder_entry_from_range(v: Seq<ArchiveEntry>, f: Seq<char>, j: int)
    requires
        0 <= j,
    ensures
        folder_entry_from(v, f, j) matches Some(k) ==> j <= k < v.len() && v[k].is_dir
            && trim_slashes_end(v[k].path@) == f,
        folder_entry_from(v, f, j) is None ==> forall|q: int|
            j <= q < v.len() ==> !(v[q].is_dir && trim_slashes_end(v[q].path@) == f),
    decreases v.len() - j,
{
    if j < v.len() && !(v[j].is_dir && trim_slashes_end(v[j].path@) == f) {
        lemma_folder_entry_from_range(v, f, j + 1);
    }
}

/// The file at `p` lies directly in the folder `d`, written with `/`: `p` is `d` (where a `\` of
/// `p` stands for a `/` of `d`), then one separator, then a name with no separator.
pub open spec fn lies_directly_in(p: Seq<char>, d: Seq<char>) -> bool {
    &&& 0 < d.len() && d.len() + 1 < p.len()
    &&& is_sep(p[d.len() as int])
    &&& forall|j: int|
        0 <= j < d.len() ==> (p[j] == '\\' ==> #[trigger] d[j] == '/') && (p[j] != '\\' ==> d[j] == p[j])
    &&& forall|j: int| d.len() < j < p.len() ==> !is_sep(#[trigger] p[j])
}

/// A folder entry's path names the folder `d`: it is `d`, then nothing but `/`.
pub open spec fn names_folder(e: Seq<char>, d: Seq<char>) -> bool {
    &&& e.len() >= d.len()
    &&& e.take(d.len() as int) == d
    &&& forall|j: int| d.len() <= j < e.len() ==> #[trigger] e[j] == '/'
}

proof fn lemma_trim_slashes_names(e: Seq<char>)
    ensures
        names_folder(e, trim_slashes_end(e)),
        trim_slashes_end(e).len() == 0 || trim_slashes_end(e).last() != '/',
    decreases e.len(),
{
    if e.len() > 0 && e.last() == '/' {
        lemma_trim_slashes_names(e.drop_last());
        let t = trim_slashes_end(e);
        assert(e.drop_last().take(t.len() as int) == e.take(t.len() as int));
        assert forall|j: int| t.len() <= j < e.len() implies #[trigger] e[j] == '/' by {
            if j < e.len() - 1 {
                assert(e[j] == e.drop_last()[j]);
            }
        }
    } else {
        assert(e.take(e.len() as int) == e);
    }
}

proof fn lemma_names_trim(e: Seq<char>, d: Seq<char>)
    requires
        names_folder(e, d),
        d.len() > 0,
        d.last() != '/',
    ensures
        trim_slashes_end(e) == d,
    decreases e.len(),
{
    if e.len() > d.len() {
        assert(e.last() == '/');
        let f = e.drop_last();
        assert(f.take(d.len() as int) == e.take(d.len() as int));
        assert forall|j: int| d.len() <= j < f.len() implies #[trigger] f[j] == '/' by {
            assert(f[j] == e[j]);
        }
        lemma_names_trim(f, d);
    } else {
        assert(e.take(d.len() as int) == e);
        assert(e.last() == d.last());
    }
}

/// The folder an entry sits in, for a plain path: the folder it lies directly in.
proof fn lemma_folder_of_plain(p: Seq<char>)
    requires
        plain_path(p),
    ensures
        folder_of(p) matches Some(f) ==> lies_directly_in(p, f),
        forall|d: Seq<char>| #[trigger] lies_directly_in(p, d) ==> folder_of(p) == Some(d),
{
    lemma_parent_of_plain(p);
    lemma_last_sep_facts(p);
    match last_sep(p) {
        Some(i) => {
            let f = forward_slashes(p.take(i));
            assert(i > 0);
            assert(i != p.len() - 1);
            assert(folder_of(p) == Some(f));
            assert forall|j: int| 0 <= j < f.len() implies (p[j] == '\\' ==> #[trigger] f[j] == '/') && (p[j]
                != '\\' ==> f[j] == p[j]) by {
                assert(p.take(i)[j] == p[j]);
            }
            assert(lies_directly_in(p, f));
            assert forall|d: Seq<char>| #[trigger] lies_directly_in(p, d) implies folder_of(p) == Some(d) by {
                let n = d.len() as int;
                if n < i {
                    assert(!is_sep(p[i]));
                } else if n > i {
                    assert(!is_sep(p[n]));
                }
                assert(f =~= d);
            }
        },
        None => {
            assert(forward_slashes(Seq::<char>::empty()).len() == 0);
            assert forall|d: Seq<char>| #[trigger] lies_directly_in(p, d) implies folder_of(p) == Some(d) by {
                assert(is_sep(p[d.len() as int]));
            }
        },
    }
}

/// A folder marked as a likely mod root directly holds an `.ini` file of the listing: that file's
/// path is the folder's path, one separator, and a name with no separator. The `.ini` paths are
/// taken as plain relative paths (see [`plain_path`]).
pub proof fn a_likely_root_directly_holds_an_ini(v: Seq<ArchiveEntry>, k: int)
    requires
        0 <= k < v.len(),
        forall|i: int| 0 <= i < v.len() && is_ini_file(v[i].path@, v[i].is_dir) ==> plain_path(#[trigger] v[i].path@),
        marked_entries(v)[k].is_likely_mod_root,
        !v[k].is_likely_mod_root,
    ensures
        v[k].is_dir,
        exists|i: int, d: Seq<char>|
            0 <= i < v.len() && is_ini_file(v[i].path@, v[i].is_dir) && #[trigger] lies_directly_in(v[i].path@, d)
                && names_folder(v[k].path@, d),
{
    assert(is_likely_root(v, k));
    let i = choose|i: int| 0 <= i < v.len() && root_marked_by(v, i) == Some(k);
    let p = v[i].path@;
    let f = folder_of(p)->0;
    lemma_folder_entry_from_range(v, f, 0);
    lemma_folder_of_plain(p);
    lemma_trim_slashes_names(v[k].path@);
    assert(lies_directly_in(v[i].path@, f) && names_folder(v[k].path@, f));
}

/// An `.ini` file that lies directly in a folder of the listing marks that folder: a folder entry
/// naming it is a likely mod root. The `.ini`'s path is taken as a plain relative path (see
/// [`plain_path`]).
pub proof fn an_ini_marks_the_folder_it_lies_in(v: Seq<ArchiveEntry>, i: int, d: Seq<char>, k: int)
    requires
        0 <= i < v.len(),
        is_ini_file(v[i].path@, v[i].is_dir),
        plain_path(v[i].path@),
        lies_directly_in(v[i].path@, d),
        0 <= k < v.len(),
        v[k].is_dir,
        names_folder(v[k].path@, d),
    ensures
        exists|q: int|
            0 <= q < v.len() && v[q].is_dir && names_folder(v[q].path@, d) && #[trigger] marked_entries(
                v,
            )[q].is_likely_mod_root,
{
    let p = v[i].path@;
    lemma_folder_of_plain(p);
    assert(folder_of(p) == Some(d));
    let n = d.len() as int;
    assert(!is_sep(p[n - 1]));
    assert(d[n - 1] != '/');
    assert(d.last() != '/');
    lemma_names_trim(v[k].path@, d);
    lemma_folder_entry_from_range(v, d, 0);
    let q = folder_entry_from(v, d, 0)->0;
    assert(root_marked_by(v, i) == Some(q));
    assert(is_likely_root(v, q));
    lemma_trim_slashes_names(v[q].path@);
    assert(marked_entries(v)[q].is_likely_mod_root);
}

/// The file names a mod's preview picture goes by, in the order they are looked for.
pub open spec fn preview_candidates() -> Seq<Seq<char>> {
    seq!["preview.png"@, "icon.png"@, "thumbnail.png"@, "preview.jpg"@, "icon.jpg"@, "thumbnail.jpg"@]
}

pub open spec fn str_views(v: Seq<&str>) -> Seq<Seq<char>> {
    v.map_values(|x: &str| x@)
}

fn preview_candidate_names() -> (r: Vec<&'static str>)
    ensures
        str_views(r@) == preview_candidates(),
{
    let r = vec!["preview.png", "icon.png", "thumbnail.png", "preview.jpg", "icon.jpg", "thumbnail.jpg"];
    assert(str_views(r@) == preview_candidates());
    r
}

/// A folder's path with one `/` at its end, the prefix its contents' paths begin with.
pub open spec fn root_prefix(path: Seq<char>) -> Seq<char> {
    if path.len() > 0 && path.last() == '/' {
        path
    } else {
        path.push('/')
    }
}

pub fn root_prefix_chars(path: &[char]) -> (r: Vec<char>)
    ensures
        r@ == root_prefix(path@),
{
    let mut out = crate::text::copy_chars(path);
    if !(path.len() > 0 && path[path.len() - 1] == '/') {
        out.push('/');
    }
    out
}

/// Whether the listing holds a file at path `p`, in any ASCII case.
pub open spec fn has_file(v: Seq<ArchiveEntry>, p: Seq<char>) -> bool {
    exists|j: int| 0 <= j < v.len() && !v[j].is_dir && eq_ignore_ascii_case(#[trigger] v[j].path@, p)
}

/// The first preview name, from candidate `c` on, that a file in the folder with prefix `prefix`
/// carries; the result is the prefix followed by that name.
pub open spec fn preview_from(v: Seq<ArchiveEntry>, prefix: Seq<char>, c: int) -> Option<Seq<char>>
    decreases preview_candidates().len() - c,
{
    if c < 0 || c >= preview_candidates().len() {
        None
    } else if has_file(v, prefix + preview_candidates()[c]) {
        Some(prefix + preview_candidates()[c])
    } else {
        preview_from(v, prefix, c + 1)
    }
}

/// The preview picture inside the folder entry `root`.
pub open spec fn preview_in(v: Seq<ArchiveEntry>, root: int) -> Option<Seq<char>> {
    preview_from(v, root_prefix(v[root].path@), 0)
}

fn has_file_exec(v: &Vec<ArchiveEntry>, p: &[char]) -> (b: bool)
    ensures
        b == has_file(v@, p@),
{
    let n = v.len();
    for j in 0..n
        invariant
            n == v@.len(),
            forall|q: int| 0 <= q < j ==> !(!v@[q].is_dir && eq_ignore_ascii_case(#[trigger] v@[q].path@, p@)),
    {
        if !v[j].is_dir {
            let c = chars_of(v[j].path.as_str());
            if eq_ignore_ascii_case_chars(c.as_slice(), p) {
                return true;
            }
        }
    }
    false
}

/// The preview picture inside a likely mod root: the folder's prefix followed by the first of
/// `preview.png`, `icon.png`, `thumbnail.png`, `preview.jpg`, `icon.jpg`, `thumbnail.jpg` that a
/// file of the listing carries, in any ASCII case.
pub fn preview_in_root(entries: &Vec<ArchiveEntry>, root: usize) -> (r: Option<String>)
    requires
        root < entries@.len(),
    ensures
        match r {
            Some(p) => preview_in(entries@, root as int) == Some(p@),
            None => preview_in(entries@, root as int) is None,
        },
{
    let path = chars_of(entries[root].path.as_str());
    let prefix = root_prefix_chars(path.as_slice());
    let names = preview_candidate_names();
    let m = names.len();
    for c in 0..m
        invariant
            m == preview_candidates().len(),
            str_views(names@) == preview_candidates(),
            prefix@ == root_prefix(entries@[root as int].path@),
            preview_in(entries@, root as int) == preview_from(entries@, prefix@, c as int),
    {
        let mut candidate = crate::text::copy_chars(prefix.as_slice());
        let name = chars_of(names[c]);
        assert(name@ == preview_candidates()[c as int]);
        extend(&mut candidate, name.as_slice());
        if has_file_exec(entries, candidate.as_slice()) {
            return Some(string_of(candidate.as_slice()));
        }
    }
    None
}

/// The likely mod root whose metadata the analysis reads: the one with the least path, and of
/// roots with that same path the first.
pub open spec fn is_first_root(v: Seq<ArchiveEntry>, k: int) -> bool {
    &&& 0 <= k < v.len()
    &&& v[k].is_likely_mod_root
    &&& forall|j: int|
        0 <= j < v.len() && #[trigger] v[j].is_likely_mod_root ==> !lex_lt(v[j].path@, v[k].path@) && (j
            < k ==> lex_lt(v[k].path@, v[j].path@))
}

/// The likely mod root with the least path, or `None` when no entry is marked as one.
pub fn first_likely_root(entries: &Vec<ArchiveEntry>) -> (r: Option<usize>)
    ensures
        match r {
            Some(k) => is_first_root(entries@, k as int),
            None => forall|j: int| 0 <= j < entries@.len() ==> !(#[trigger] entries@[j].is_likely_mod_root),
        },
{
    let n = entries.len();
    let mut best: Option<usize> = None;
    for j in 0..n
        invariant
            n == entries@.len(),
            match best {
                Some(k) => k < j && entries@[k as int].is_likely_mod_root && forall|q: int|
                    0 <= q < j && #[trigger] entries@[q].is_likely_mod_root ==> !lex_lt(
                        entries@[q].path@,
                        entries@[k as int].path@,
                    ) && (q < k ==> lex_lt(entries@[k as int].path@, entries@[q].path@)),
                None => forall|q: int| 0 <= q < j ==> !(#[trigger] entries@[q].is_likely_mod_root),
            },
    {
        if entries[j].is_likely_mod_root {
            match best {
                None => {
                    best = Some(j);
                    proof {
                        lemma_lex_irreflexive(entries@[j as int].path@);
                    }
                },
                Some(k) => {
                    let pj = chars_of(entries[j].path.as_str());
                    let pk = chars_of(entries[k].path.as_str());
                    if lex_lt_chars(pj.as_slice(), pk.as_slice()) {
                        proof {
                            lemma_lex_irreflexive(entries@[j as int].path@);
                            assert forall|q: int|
                                0 <= q < j + 1 && #[trigger] entries@[q].is_likely_mod_root implies !lex_lt(
                                entries@[q].path@,
                                entries@[j as int].path@,
                            ) && (q < j ==> lex_lt(entries@[j as int].path@, entries@[q].path@)) by {
                                if q < j {
                                    lemma_lex_total(entries@[q].path@, entries@[k as int].path@);
                                    if entries@[q].path@ != entries@[k as int].path@ {
                                        lemma_lex_transitive(entries@[j as int].path@, entries@[k as int].path@, entries@[q].path@);
                                    }
                                    lemma_lex_total(entries@[q].path@, entries@[j as int].path@);
                                }
                            }
                        }
                        best = Some(j);
                    } else {
                        proof {
                            lemma_lex_total(pj@, pk@);
                        }
                    }
                },
            }
        }
    }
    best
}

/// `s` with every leading copy of `p` taken off, as `str::trim_start_matches` does; an empty `p`
/// takes nothing.
pub open spec fn trim_start_matches(s: Seq<char>, p: Seq<char>) -> Seq<char>
    decreases s.len(),
{
    if p.len() > 0 && starts_with(s, p) {
        trim_start_matches(s.skip(p.len() as int), p)
    } else {
        s
    }
}

/// Whether a path lies directly in the folder with prefix `prefix`: it begins with the prefix, and
/// what is left once every leading copy of the prefix is taken off holds no `/`.
pub open spec fn directly_in(path: Seq<char>, prefix: Seq<char>) -> bool {
    starts_with(path, prefix) && !trim_start_matches(path, prefix).contains('/')
}

fn trim_start_matches_chars(s: &[char], p: &[char]) -> (r: Vec<char>)
    ensures
        r@ == trim_start_matches(s@, p@),
{
    let n = s.len();
    let m = p.len();
    if m == 0 {
        return crate::text::copy_chars(s);
    }
    let mut lo: usize = 0;
    let mut rest = crate::text::copy_chars(s);
    while starts_with_chars(rest.as_slice(), p)
        invariant
            m == p@.len() > 0,
            lo <= n == s@.len(),
            rest@ == s@.skip(lo as int),
            trim_start_matches(s@, p@) == trim_start_matches(rest@, p@),
        decreases n - lo,
    {
        assert(rest@.skip(m as int) == s@.skip(lo + m));
        lo = lo + m;
        rest = crate::text::slice_range(s, lo, n);
    }
    rest
}

/// Which of the `.ini` texts read with the listing holds the metadata of the root with prefix
/// `prefix`: the first path, in the order given, that lies directly in that folder.
pub fn pick_root_ini(paths: &Vec<String>, prefix: &[char]) -> (r: Option<usize>)
    ensures
        match r {
            Some(i) => i < paths@.len() && directly_in(paths@[i as int]@, prefix@) && forall|q: int|
                0 <= q < i ==> !directly_in(#[trigger] paths@[q]@, prefix@),
            None => forall|q: int| 0 <= q < paths@.len() ==> !directly_in(#[trigger] paths@[q]@, prefix@),
        },
{
    let n = paths.len();
    for i in 0..n
        invariant
            n == paths@.len(),
            forall|q: int| 0 <= q < i ==> !directly_in(#[trigger] paths@[q]@, prefix@),
    {
        let c = chars_of(paths[i].as_str());
        if starts_with_chars(c.as_slice(), prefix) {
            let rest = trim_start_matches_chars(c.as_slice(), prefix);
            let slash = vec!['/'];
            assert(slash@ == seq!['/']);
            if !crate::text::contains_chars(rest.as_slice(), slash.as_slice()) {
                proof {
                    lemma_contains_char(rest@, '/');
                }
                return Some(i);
            } else {
                proof {
                    lemma_contains_char(rest@, '/');
                }
            }
        }
    }
    None
}

/// Holding one character as a piece is holding it.
proof fn lemma_contains_char(s: Seq<char>, c: char)
    ensures
        crate::text::contains_seq(s, seq![c]) == s.contains(c),
{
    if s.contains(c) {
        let k = choose|k: int| 0 <= k < s.len() && s[k] == c;
        assert(s.subrange(k, k + 1) == seq![c]);
        assert(crate::text::occurs_at(s, seq![c], k));
    }
    if crate::text::contains_seq(s, seq![c]) {
        let k = choose|k: int| crate::text::occurs_at(s, seq![c], k);
        assert(s.subrange(k, k + 1)[0] == s[k]);
    }
}

/// The value rust-ini reads for `key` in the section named `section` of an INI text: `None` when
/// the text does not parse, when it has no such section, or when that section has no such key.
pub uninterp spec fn ini_value(content: Seq<char>, section: Seq<char>, key: Seq<char>) -> Option<Seq<char>>;

/// The characters an optional `String` holds.
pub open spec fn opt_view(o: Option<String>) -> Option<Seq<char>> {
    match o {
        Some(v) => Some(v@),
        None => None,
    }
}

/// `ini::Ini::load_from_str` on the text, then `Ini::section` with the section's name and
/// `Properties::get` with the key. The value depends on the three texts alone and is named
/// [`ini_value`]; nothing more is claimed of it.
#[verifier::external_body]
fn ini_get(content: &str, section: &str, key: &str) -> (r: Option<String>)
    ensures
        opt_view(r) == ini_value(content@, section@, key@),
{
    let ini = ini::Ini::load_from_str(content).ok()?;
    ini.section(Some(section)).and_then(|props| props.get(key)).map(|v| v.to_string())
}

/// What a mod's `.ini` says about it, read from its `[Mod]`, `[Settings]`, `[Info]` and
/// `[General]` sections.
#[derive(Clone, Debug)]
pub struct IniHints {
    /// The mod's name as each section that gives one writes it (`Name`, else `ModName`), in
    /// section order; the caller tidies them and keeps the last that is not empty.
    pub names: Vec<String>,
    /// `Author`, trimmed.
    pub author: Option<String>,
    /// The character the mod is for (`Target`, else `Entity`, else `Character`), trimmed.
    pub target: Option<String>,
    /// What kind of mod it is (`Type`, else `Category`), trimmed.
    pub kind: Option<String>,
}

/// The sections metadata is read from, in order; a later one overrides an earlier one.
pub open spec fn metadata_sections() -> Seq<Seq<char>> {
    seq!["Mod"@, "Settings"@, "Info"@, "General"@]
}

/// The value of the first key, from `k` on, that the section has.
pub open spec fn first_key_value(content: Seq<char>, section: Seq<char>, keys: Seq<Seq<char>>, k: int) -> Option<Seq<char>>
    decreases keys.len() - k,
{
    if k < 0 || k >= keys.len() {
        None
    } else {
        match ini_value(content, section, keys[k]) {
            Some(v) => Some(v),
            None => first_key_value(content, section, keys, k + 1),
        }
    }
}

/// A hint read through the first `n` metadata sections: the value from the last of them that has
/// one of the keys.
pub open spec fn hint_upto(content: Seq<char>, keys: Seq<Seq<char>>, n: int) -> Option<Seq<char>>
    decreases n,
{
    if n <= 0 || n > metadata_sections().len() {
        None
    } else {
        match first_key_value(content, metadata_sections()[n - 1], keys, 0) {
            Some(v) => Some(v),
            None => hint_upto(content, keys, n - 1),
        }
    }
}

/// A hint through all the metadata sections.
pub open spec fn hint(content: Seq<char>, keys: Seq<Seq<char>>) -> Option<Seq<char>> {
    hint_upto(content, keys, metadata_sections().len() as int)
}

/// What the first `n` metadata sections give for `keys`, in section order: for each section that
/// has one of the keys, the value of the first it has.
pub open spec fn section_values_upto(content: Seq<char>, keys: Seq<Seq<char>>, n: int) -> Seq<Seq<char>>
    decreases n,
{
    if n <= 0 || n > metadata_sections().len() {
        Seq::empty()
    } else {
        match first_key_value(content, metadata_sections()[n - 1], keys, 0) {
            Some(v) => section_values_upto(content, keys, n - 1).push(v),
            None => section_values_upto(content, keys, n - 1),
        }
    }
}

/// What all the metadata sections give for `keys`, in section order.
pub open spec fn section_values(content: Seq<char>, keys: Seq<Seq<char>>) -> Seq<Seq<char>> {
    section_values_upto(content, keys, metadata_sections().len() as int)
}

pub open spec fn string_views(v: Seq<String>) -> Seq<Seq<char>> {
    v.map_values(|x: String| x@)
}

pub open spec fn trimmed(o: Option<Seq<char>>) -> Option<Seq<char>> {
    match o {
        Some(v) => Some(trim(v)),
        None => None,
    }
}

pub open spec fn name_keys() -> Seq<Seq<char>> {
    seq!["Name"@, "ModName"@]
}

pub open spec fn author_keys() -> Seq<Seq<char>> {
    seq!["Author"@]
}

pub open spec fn target_keys() -> Seq<Seq<char>> {
    seq!["Target"@, "Entity"@, "Character"@]
}

pub open spec fn kind_keys() -> Seq<Seq<char>> {
    seq!["Type"@, "Category"@]
}

/// The value of the first of `keys` that the section has.
fn first_key_value_exec(content: &str, section: &str, keys: &Vec<&'static str>) -> (r: Option<String>)
    ensures
        opt_view(r) == first_key_value(content@, section@, str_views(keys@), 0),
{
    let n = keys.len();
    let ghost ks = str_views(keys@);
    for k in 0..n
        invariant
            n == keys@.len() == ks.len(),
            ks == str_views(keys@),
            first_key_value(content@, section@, ks, 0) == first_key_value(content@, section@, ks, k as int),
    {
        let v = ini_get(content, section, keys[k]);
        assert(keys@[k as int]@ == ks[k as int]);
        if v.is_some() {
            return v;
        }
    }
    None
}

/// A hint through all the metadata sections.
fn hint_exec(content: &str, keys: &Vec<&'static str>) -> (r: Option<String>)
    ensures
        opt_view(r) == hint(content@, str_views(keys@)),
{
    let sections = vec!["Mod", "Settings", "Info", "General"];
    assert(str_views(sections@) == metadata_sections());
    let mut found: Option<String> = None;
    let n = sections.len();
    for i in 0..n
        invariant
            n == metadata_sections().len(),
            str_views(sections@) == metadata_sections(),
            opt_view(found) == hint_upto(content@, str_views(keys@), i as int),
    {
        assert(sections@[i as int]@ == metadata_sections()[i as int]);
        let here = first_key_value_exec(content, sections[i], keys);
        if here.is_some() {
            found = here;
        }
    }
    found
}

/// What every metadata section gives for the keys, in section order.
fn section_values_exec(content: &str, keys: &Vec<&'static str>) -> (r: Vec<String>)
    ensures
        string_views(r@) == section_values(content@, str_views(keys@)),
{
    let sections = vec!["Mod", "Settings", "Info", "General"];
    assert(str_views(sections@) == metadata_sections());
    let mut found: Vec<String> = Vec::new();
    let n = sections.len();
    for i in 0..n
        invariant
            n == metadata_sections().len(),
            str_views(sections@) == metadata_sections(),
            string_views(found@) == section_values_upto(content@, str_views(keys@), i as int),
    {
        assert(sections@[i as int]@ == metadata_sections()[i as int]);
        let here = first_key_value_exec(content, sections[i], keys);
        match here {
            Some(v) => {
                let ghost before = string_views(found@);
                let ghost vv = v@;
                found.push(v);
                assert(string_views(found@) == before.push(vv));
            },
            None => {},
        }
    }
    found
}

fn trimmed_exec(o: Option<String>) -> (r: Option<String>)
    ensures
        opt_view(r) == trimmed(opt_view(o)),
{
    match o {
        Some(v) => {
            let c = chars_of(v.as_str());
            let t = trim_chars(c.as_slice());
            Some(string_of(t.as_slice()))
        },
        None => None,
    }
}

/// What a mod's `.ini` text says about the mod. The names come from each of `[Mod]`,
/// `[Settings]`, `[Info]`, `[General]` that gives one, in that order; every other value comes from
/// the last of them that has one of its keys, trimmed.
pub fn ini_hints(content: &str) -> (r: IniHints)
    ensures
        string_views(r.names@) == section_values(content@, name_keys()),
        opt_view(r.author) == trimmed(hint(content@, author_keys())),
        opt_view(r.target) == trimmed(hint(content@, target_keys())),
        opt_view(r.kind) == trimmed(hint(content@, kind_keys())),
{
    let name_k = vec!["Name", "ModName"];
    assert(str_views(name_k@) == name_keys());
    let author_k = vec!["Author"];
    assert(str_views(author_k@) == author_keys());
    let target_k = vec!["Target", "Entity", "Character"];
    assert(str_views(target_k@) == target_keys());
    let kind_k = vec!["Type", "Category"];
    assert(str_views(kind_k@) == kind_keys());
    IniHints {
        names: section_values_exec(content, &name_k),
        author: trimmed_exec(hint_exec(content, &author_k)),
        target: trimmed_exec(hint_exec(content, &target_k)),
        kind: trimmed_exec(hint_exec(content, &kind_k)),
    }
}

/// How an imported mod's name becomes a folder name: spaces, dots and quotes turn into `_`.
pub open spec fn folder_char(c: char) -> char {
    if c == ' ' || c == '.' || c == '\'' || c == '"' {
        '_'
    } else {
        c
    }
}

/// The folder an imported mod is unpacked into: its name trimmed, spaces, dots and quotes made `_`.
pub open spec fn import_folder_name(mod_name: Seq<char>) -> Seq<char> {
    Seq::new(trim(mod_name).len(), |i: int| folder_char(trim(mod_name)[i]))
}

/// The folder an imported mod goes into is its trimmed name, character for character: each space,
/// dot, single quote and double quote becomes `_`, and every other character stays where it is.
pub proof fn import_folder_keeps_the_name(mod_name: Seq<char>)
    ensures
        import_folder_name(mod_name).len() == trim(mod_name).len(),
        forall|i: int|
            0 <= i < trim(mod_name).len() && (trim(mod_name)[i] == ' ' || trim(mod_name)[i] == '.'
                || trim(mod_name)[i] == '\'' || trim(mod_name)[i] == '"') ==> #[trigger] import_folder_name(
                mod_name,
            )[i] == '_',
        forall|i: int|
            0 <= i < trim(mod_name).len() && !(trim(mod_name)[i] == ' ' || trim(mod_name)[i] == '.'
                || trim(mod_name)[i] == '\'' || trim(mod_name)[i] == '"') ==> #[trigger] import_folder_name(
                mod_name,
            )[i] == trim(mod_name)[i],
{
}

/// The folder an imported mod goes into, or why there is none: a name that is empty once trimmed
/// is refused.
pub fn import_folder_for(mod_name: &str) -> (r: Result<String, String>)
    ensures
        r is Err <==> trim(mod_name@).len() == 0,
        r matches Ok(f) ==> f@ == import_folder_name(mod_name@),
        r matches Err(e) ==> e@ == "Mod name cannot be empty."@,
{
    let cs = chars_of(mod_name);
    let t = trim_chars(cs.as_slice());
    if t.len() == 0 {
        return Err("Mod name cannot be empty.".to_string());
    }
    let mut out: Vec<char> = Vec::new();
    let n = t.len();
    for i in 0..n
        invariant
            n == t@.len(),
            t@ == trim(mod_name@),
            out@ == import_folder_name(mod_name@).take(i as int),
    {
        let c = t[i];
        let d = if c == ' ' || c == '.' || c == '\'' || c == '"' {
            '_'
        } else {
            c
        };
        out.push(d);
        assert(import_folder_name(mod_name@).take(i + 1) == import_folder_name(mod_name@).take(
            i as int,
        ).push(d));
    }
    assert(import_folder_name(mod_name@).take(n as int) == import_folder_name(mod_name@));
    if out.len() == 0 {
        return Err("Mod name results in an invalid folder name.".to_string());
    }
    Ok(string_of(out.as_slice()))
}

/// Where under the Mods folder a mod belongs, by what it was assigned: a named agent comes first,
/// then a category item, then a category; a mod with none of them goes to `misc`.
#[derive(Clone, Copy, Debug, PartialEq, Eq)]
pub enum ModHome {
    Agent(i64),
    CategoryItem(i64),
    Category(i64),
    Misc,
}

/// Which assignment decides where a mod lives.
pub fn mod_home(agent_id: Option<i64>, category_id: Option<i64>, category_item_id: Option<i64>) -> (r: ModHome)
    ensures
        r == (match (agent_id, category_item_id, category_id) {
            (Some(a), _, _) => ModHome::Agent(a),
            (None, Some(i), _) => ModHome::CategoryItem(i),
            (None, None, Some(c)) => ModHome::Category(c),
            (None, None, None) => ModHome::Misc,
        }),
{
    if let Some(a) = agent_id {
        return ModHome::Agent(a);
    }
    if let Some(i) = category_item_id {
        return ModHome::CategoryItem(i);
    }
    if let Some(c) = category_id {
        return ModHome::Category(c);
    }
    ModHome::Misc
}

/// The folder, relative to the Mods folder, that everything of one agent lives under.
pub fn agent_subpath(agent_slug: &str) -> (r: String)
    ensures
        r@ == join_path("agents"@, agent_slug@),
{
    let base = chars_of("agents");
    let slug = chars_of(agent_slug);
    string_of(join_path_chars(base.as_slice(), slug.as_slice()).as_slice())
}

/// The folder, relative to the Mods folder, of one item of a category.
pub fn category_item_subpath(category_slug: &str, item_slug: &str) -> (r: String)
    ensures
        r@ == join_path(category_slug@, item_slug@),
{
    let c = chars_of(category_slug);
    let i = chars_of(item_slug);
    string_of(join_path_chars(c.as_slice(), i.as_slice()).as_slice())
}

/// The path a mod is recorded under, relative to the Mods folder: its folder under the subpath of
/// its home, with `/` between components.
pub fn recorded_mod_path(subpath: &str, folder: &str) -> (r: String)
    ensures
        r@ == forward_slashes(join_path(subpath@, folder@)),
{
    let s = chars_of(subpath);
    let f = chars_of(folder);
    let joined = join_path_chars(s.as_slice(), f.as_slice());
    string_of(forward_slashes_chars(joined.as_slice()).as_slice())
}

/// `s` without the `/` characters at its end, as the prefix of the entries to unpack is given.
pub open spec fn extraction_prefix_of(selected: Option<Seq<char>>) -> Seq<char> {
    match selected {
        Some(p) => trim_slashes_end(forward_slashes(p)),
        None => Seq::empty(),
    }
}

/// The folder inside the archive to unpack, with `/` between components and none at its end;
/// empty for the whole archive.
pub fn extraction_prefix(selected: Option<&str>) -> (r: String)
    ensures
        r@ == extraction_prefix_of(match selected {
            Some(p) => Some(p@),
            None => None,
        }),
{
    match selected {
        Some(p) => {
            let c = chars_of(p);
            let f = forward_slashes_chars(c.as_slice());
            string_of(trim_slashes_end_chars(f.as_slice()).as_slice())
        },
        None => String::new(),
    }
}

/// How many of `archives[..n]` sit in the folder `folder`.
pub open spec fn count_in_folder(archives: Seq<Seq<char>>, folder: Seq<char>, n: int) -> nat
    decreases n,
{
    if n <= 0 || n > archives.len() {
        0
    } else {
        count_in_folder(archives, folder, n - 1) + if parent(archives[n - 1]) == Some(folder) {
            1nat
        } else {
            0nat
        }
    }
}

/// Where an archive left inside an unpacked mod is unpacked to.
#[derive(Clone, Debug, PartialEq, Eq)]
pub enum UnpackTarget {
    /// Into the folder it sits in: it is the only archive there, so the mod's files, its preview
    /// among them, stay at the level they are looked for.
    Here(String),
    /// Into a folder of its own named after it, made vacant first: several archives share its
    /// folder, and unpacking them into one place would have them overwrite each other.
    Own(String),
}

/// Where archive `i` of `archives`, all found in one pass, is unpacked to; `None` for an archive
/// with no folder.
pub open spec fn unpack_target_of(archives: Seq<Seq<char>>, i: int) -> Option<(bool, Seq<char>)> {
    match parent(archives[i]) {
        Some(folder) => if count_in_folder(archives, folder, archives.len() as int) == 1 {
            Some((true, folder))
        } else {
            Some((
                false,
                join_path(
                    folder,
                    match file_stem(archives[i]) {
                        Some(s) => s,
                        None => Seq::empty(),
                    },
                ),
            ))
        },
        None => None,
    }
}

/// Where archive `i` of the archives found in one pass is unpacked to.
pub fn unpack_target(archives: &Vec<String>, i: usize) -> (r: Option<UnpackTarget>)
    requires
        i < archives@.len(),
    ensures
        match r {
            Some(UnpackTarget::Here(p)) => unpack_target_of(archives@.map_values(|a: String| a@), i as int)
                == Some((true, p@)),
            Some(UnpackTarget::Own(p)) => unpack_target_of(archives@.map_values(|a: String| a@), i as int)
                == Some((false, p@)),
            None => unpack_target_of(archives@.map_values(|a: String| a@), i as int) is None,
        },
{
    let ghost av = archives@.map_values(|a: String| a@);
    let me = chars_of(archives[i].as_str());
    let folder = match parent_chars(me.as_slice()) {
        Some(f) => f,
        None => return None,
    };
    let n = archives.len();
    let mut count: usize = 0;
    for j in 0..n
        invariant
            n == archives@.len() == av.len(),
            av == archives@.map_values(|a: String| a@),
            count == count_in_folder(av, folder@, j as int),
            count <= j,
    {
        let other = chars_of(archives[j].as_str());
        assert(other@ == av[j as int]);
        let same = match parent_chars(other.as_slice()) {
            Some(p) => eq_chars(p.as_slice(), folder.as_slice()),
            None => false,
        };
        if same {
            count += 1;
        }
    }
    if count == 1 {
        return Some(UnpackTarget::Here(string_of(folder.as_slice())));
    }
    let stem = match file_stem_chars(me.as_slice()) {
        Some(s) => s,
        None => Vec::new(),
    };
    let own = join_path_chars(folder.as_slice(), stem.as_slice());
    Some(UnpackTarget::Own(string_of(own.as_slice())))
}

/// The `n`th try at a vacant folder for `preferred`: its last component followed by ` (n)`, in
/// the same place, as `Path::with_file_name` puts it.
pub open spec fn numbered_dir_of(preferred: Seq<char>, n: int) -> Seq<char> {
    let name = match file_name(preferred) {
        Some(x) => x,
        None => Seq::empty(),
    };
    let numbered = name + " ("@ + crate::text::decimal(n) + ")"@;
    match file_name(preferred) {
        Some(_) => match parent(preferred) {
            Some(dir) => join_path(dir, numbered),
            None => numbered,
        },
        None => join_path(preferred, numbered),
    }
}

/// The `n`th try at a vacant folder for `preferred`. The folder is taken as it is while nothing
/// occupies it; after that the tries run from `n = 2` up until one is free.
pub fn numbered_dir(preferred: &str, n: usize) -> (r: String)
    ensures
        r@ == numbered_dir_of(preferred@, n as int),
{
    let p = chars_of(preferred);
    let fname = file_name_chars(p.as_slice());
    let mut numbered = match &fname {
        Some(x) => crate::text::copy_chars(x.as_slice()),
        None => Vec::new(),
    };
    extend(&mut numbered, chars_of(" (").as_slice());
    extend(&mut numbered, crate::text::decimal_usize(n).as_slice());
    extend(&mut numbered, chars_of(")").as_slice());
    let out = match fname {
        Some(_) => match parent_chars(p.as_slice()) {
            Some(dir) => join_path_chars(dir.as_slice(), numbered.as_slice()),
            None => numbered,
        },
        None => join_path_chars(p.as_slice(), numbered.as_slice()),
    };
    string_of(out.as_slice())
}

/// The archive formats an import can read.
#[derive(Clone, Copy, Debug, PartialEq, Eq)]
pub enum ArchiveKind {
    Zip,
    SevenZip,
    Rar,
}

/// The format an archive's extension names, compared in lowercase: `zip`, `7z` or `rar`; any other
/// extension, or none, is refused with the lowercase extension it had.
pub open spec fn archive_kind_of(path: Seq<char>) -> Result<ArchiveKind, Option<Seq<char>>> {
    match extension(path) {
        Some(e) => if lowercase(e) == "zip"@ {
            Ok(ArchiveKind::Zip)
        } else if lowercase(e) == "7z"@ {
            Ok(ArchiveKind::SevenZip)
        } else if lowercase(e) == "rar"@ {
            Ok(ArchiveKind::Rar)
        } else {
            Err(Some(lowercase(e)))
        },
        None => Err(None),
    }
}

/// Which reader an archive needs, or the lowercase extension it was refused for.
pub fn archive_kind(path: &str) -> (r: Result<ArchiveKind, Option<String>>)
    ensures
        match (r, archive_kind_of(path@)) {
            (Ok(k), Ok(k2)) => k == k2,
            (Err(Some(e)), Err(Some(e2))) => e@ == e2,
            (Err(None), Err(None)) => true,
            _ => false,
        },
{
    match extension_chars(chars_of(path).as_slice()) {
        Some(e) => {
            let lowered = to_lowercase(string_of(e.as_slice()).as_str());
            let l = chars_of(lowered.as_str());
            if eq_chars(l.as_slice(), chars_of("zip").as_slice()) {
                Ok(ArchiveKind::Zip)
            } else if eq_chars(l.as_slice(), chars_of("7z").as_slice()) {
                Ok(ArchiveKind::SevenZip)
            } else if eq_chars(l.as_slice(), chars_of("rar").as_slice()) {
                Ok(ArchiveKind::Rar)
            } else {
                Err(Some(lowered))
            }
        },
        None => Err(None),
    }
}

/// What the analysis settles about the mod inside an archive.
#[derive(Clone, Debug)]
pub struct Deduction {
    pub name: Option<String>,
    pub author: Option<String>,
    pub agent_id: Option<i64>,
    pub category_id: Option<i64>,
    pub category_item_id: Option<i64>,
}

/// The last of the texts that is not empty.
pub open spec fn last_nonempty(v: Seq<Seq<char>>) -> Option<Seq<char>>
    decreases v.len(),
{
    if v.len() == 0 {
        None
    } else if v.last().len() > 0 {
        Some(v.last())
    } else {
        last_nonempty(v.drop_last())
    }
}

fn last_nonempty_exec(v: &Vec<String>) -> (r: Option<String>)
    ensures
        opt_view(r) == last_nonempty(string_views(v@)),
{
    let ghost sv = string_views(v@);
    let mut k = v.len();
    assert(sv.take(k as int) == sv);
    while k > 0
        invariant
            k <= v@.len() == sv.len(),
            sv == string_views(v@),
            last_nonempty(sv) == last_nonempty(sv.take(k as int)),
        decreases k,
    {
        let ghost t = sv.take(k as int);
        assert(t.last() == v@[k - 1]@);
        assert(t.drop_last() == sv.take(k - 1));
        let c = chars_of(v[k - 1].as_str());
        if c.len() > 0 {
            return Some(string_of(c.as_slice()));
        }
        proof {
            assert(v@[k - 1]@.len() == 0);
        }
        k -= 1;
    }
    None
}

/// The first agent found, in order.
pub open spec fn first_found(v: Seq<Option<i64>>) -> Option<i64>
    decreases v.len(),
{
    if v.len() == 0 {
        None
    } else if v[0] is Some {
        v[0]
    } else {
        first_found(v.drop_first())
    }
}

/// The order in which an archive's mod is identified. The `.ini` of the first likely root speaks
/// first: its character hint names the agent, and failing that its type hint names the category.
/// Still without an agent, the stems of the archive's files are tried in listing order. Still with
/// neither agent nor category, the archive's own file stem is tried for an agent, then for a
/// category. The name is the last non-empty one of the `.ini`'s sections (tidied, in section
/// order: `ini_names`), or else the archive's stem. A category match is `(item,
/// category)`. The matches come in from the deduction tables as values: `hint_agent` and
/// `hint_category` for the hints, `stem_agents` for the file stems, `archive_agent` and
/// `archive_category` for the archive's stem.
pub open spec fn deduction_of(
    ini_names: Seq<Seq<char>>,
    author: Option<Seq<char>>,
    hint_agent: Option<i64>,
    hint_category: Option<(Option<i64>, i64)>,
    stem_agents: Seq<Option<i64>>,
    archive_agent: Option<i64>,
    archive_category: Option<(Option<i64>, i64)>,
    stem_name: Option<Seq<char>>,
) -> (Option<Seq<char>>, Option<Seq<char>>, Option<i64>, Option<i64>, Option<i64>) {
    let cat1 = if hint_agent is None { hint_category } else { None };
    let agent2 = if hint_agent is None { first_found(stem_agents) } else { hint_agent };
    let (agent3, cat3) = if agent2 is None && cat1 is None {
        (archive_agent, if archive_agent is None { archive_category } else { None })
    } else {
        (agent2, cat1)
    };
    let name = match last_nonempty(ini_names) {
        Some(n) => Some(n),
        None => stem_name,
    };
    match cat3 {
        Some((item, cat)) => (name, author, agent3, Some(cat), item),
        None => (name, author, agent3, None, None),
    }
}

pub open spec fn deduction_view(d: Deduction) -> (Option<Seq<char>>, Option<Seq<char>>, Option<i64>, Option<i64>, Option<i64>) {
    (opt_view(d.name), opt_view(d.author), d.agent_id, d.category_id, d.category_item_id)
}

fn first_found_exec(v: &Vec<Option<i64>>) -> (r: Option<i64>)
    ensures
        r == first_found(v@),
{
    let n = v.len();
    let mut i: usize = 0;
    assert(v@.skip(0) == v@);
    while i < n
        invariant
            i <= n == v@.len(),
            first_found(v@) == first_found(v@.skip(i as int)),
        decreases n - i,
    {
        assert(v@.skip(i as int).drop_first() == v@.skip(i + 1));
        if v[i].is_some() {
            return v[i];
        }
        i += 1;
    }
    assert(v@.skip(i as int).len() == 0);
    None
}

/// Identifies an archive's mod from the matches made for its hints and names, in the order
/// [`deduction_of`] gives.
pub fn deduce_archive(
    ini_names: &Vec<String>,
    author: Option<String>,
    hint_agent: Option<i64>,
    hint_category: Option<(Option<i64>, i64)>,
    stem_agents: &Vec<Option<i64>>,
    archive_agent: Option<i64>,
    archive_category: Option<(Option<i64>, i64)>,
    stem_name: Option<String>,
) -> (r: Deduction)
    ensures
        deduction_view(r) == deduction_of(
            string_views(ini_names@),
            opt_view(author),
            hint_agent,
            hint_category,
            stem_agents@,
            archive_agent,
            archive_category,
            opt_view(stem_name),
        ),
{
    let cat1 = if hint_agent.is_none() { hint_category } else { None };
    let mut agent = hint_agent;
    if agent.is_none() {
        agent = first_found_exec(stem_agents);
    }
    let mut cat = cat1;
    if agent.is_none() && cat.is_none() {
        agent = archive_agent;
        if agent.is_none() {
            cat = archive_category;
        }
    }
    let name = match last_nonempty_exec(ini_names) {
        Some(n) => Some(n),
        None => stem_name,
    };
    match cat {
        Some((item, c)) => Deduction { name, author, agent_id: agent, category_id: Some(c), category_item_id: item },
        None => Deduction { name, author, agent_id: agent, category_id: None, category_item_id: None },
    }
}

/// The analysis of an archive at `file_path`, from its listing with likely roots marked, the
/// preview found, and what was deduced.
pub fn analysis_of(file_path: &str, entries: Vec<ArchiveEntry>, preview: Option<String>, d: Deduction) -> (r: ArchiveAnalysis)
    ensures
        r.file_path@ == file_path@,
        r.entries@ == entries@,
        opt_view(r.detected_preview_internal_path) == opt_view(preview),
        (opt_view(r.deduced_name), opt_view(r.deduced_author), r.deduced_agent_id, r.deduced_category_id,
            r.deduced_category_item_id) == deduction_view(d),
{
    ArchiveAnalysis {
        file_path: string_of(chars_of(file_path).as_slice()),
        entries,
        deduced_name: d.name,
        deduced_author: d.author,
        deduced_agent_id: d.agent_id,
        deduced_category_id: d.category_id,
        deduced_category_item_id: d.category_item_id,
        detected_preview_internal_path: preview,
    }
}

} // verus!
