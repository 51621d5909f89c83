//! The one list of image formats the app handles, read in both directions: a file's extension to
//! the MIME type it is sent as, and a MIME type to the extension it is saved under. Both refuse
//! what is not in the list, so an unsupported format fails where the user can still pick another
//! file rather than becoming an image that silently will not render.

use vstd::prelude::*;
use crate::text::{chars_of, eq_chars, is_ascii, is_white_space, trim_start, join, join_chars, views, lowercase, string_of, to_lowercase, trim, trim_chars};

verus! {

/// `(extension, mime)`, extensions lowercase and without the dot. Several extensions may share a
/// type; the reverse direction picks the canonical one below.
pub open spec fn formats() -> Seq<(Seq<char>, Seq<char>)> {
    seq![
        ("png"@, "image/png"@),
        ("apng"@, "image/apng"@),
        ("jpg"@, "image/jpeg"@),
        ("jpeg"@, "image/jpeg"@),
        ("jpe"@, "image/jpeg"@),
        ("jif"@, "image/jpeg"@),
        ("jfif"@, "image/jpeg"@),
        ("webp"@, "image/webp"@),
        ("gif"@, "image/gif"@),
        ("svg"@, "image/svg+xml"@),
        ("ico"@, "image/x-icon"@),
        ("bmp"@, "image/bmp"@),
        ("avif"@, "image/avif"@),
        ("heic"@, "image/heic"@),
        ("heif"@, "image/heif"@),
        ("jxl"@, "image/jxl"@),
        ("tif"@, "image/tiff"@),
        ("tiff"@, "image/tiff"@),
    ]
}

/// `(mime, extension)`: the extension to save under, for types with more than one spelling. APNG
/// is saved as `png`, since the file really is a PNG.
pub open spec fn canonical() -> Seq<(Seq<char>, Seq<char>)> {
    seq![
        ("image/jpeg"@, "jpg"@),
        ("image/apng"@, "png"@),
        ("image/tiff"@, "tiff"@),
        ("image/vnd.microsoft.icon"@, "ico"@),
    ]
}

/// The format table, in order.
pub fn format_table() -> (r: Vec<(&'static str, &'static str)>)
    ensures
        str_pairs(r@) == formats(),
{
    let r = vec![
        ("png", "image/png"),
        ("apng", "image/apng"),
        ("jpg", "image/jpeg"),
        ("jpeg", "image/jpeg"),
        ("jpe", "image/jpeg"),
        ("jif", "image/jpeg"),
        ("jfif", "image/jpeg"),
        ("webp", "image/webp"),
        ("gif", "image/gif"),
        ("svg", "image/svg+xml"),
        ("ico", "image/x-icon"),
        ("bmp", "image/bmp"),
        ("avif", "image/avif"),
        ("heic", "image/heic"),
        ("heif", "image/heif"),
        ("jxl", "image/jxl"),
        ("tif", "image/tiff"),
        ("tiff", "image/tiff"),
    ];
    assert(str_pairs(r@) == formats());
    r
}

fn canonical_table() -> (r: Vec<(&'static str, &'static str)>)
    ensures
        str_pairs(r@) == canonical(),
{
    let r = vec![
        ("image/jpeg", "jpg"),
        ("image/apng", "png"),
        ("image/tiff", "tiff"),
        ("image/vnd.microsoft.icon", "ico"),
    ];
    assert(str_pairs(r@) == canonical());
    r
}

pub open spec fn str_pairs(v: Seq<(&str, &str)>) -> Seq<(Seq<char>, Seq<char>)> {
    v.map_values(|p: (&str, &str)| (p.0@, p.1@))
}

/// The second half of the first pair at or after `i` whose first half is `k`.
pub open spec fn lookup_from(table: Seq<(Seq<char>, Seq<char>)>, k: Seq<char>, i: int) -> Option<Seq<char>>
    decreases table.len() - i,
{
    if i < 0 || i >= table.len() {
        None
    } else if table[i].0 == k {
        Some(table[i].1)
    } else {
        lookup_from(table, k, i + 1)
    }
}

/// The table with each pair's halves swapped.
pub open spec fn swapped(table: Seq<(Seq<char>, Seq<char>)>) -> Seq<(Seq<char>, Seq<char>)> {
    table.map_values(|p: (Seq<char>, Seq<char>)| (p.1, p.0))
}

/// The MIME type for an extension already in lowercase.
pub open spec fn mime_for_lowered(lowered: Seq<char>) -> Option<Seq<char>> {
    lookup_from(formats(), lowered, 0)
}

/// The extension to save a MIME type under, for a type already trimmed and in lowercase: the
/// canonical one when the type has one, else the first extension the table lists for it.
pub open spec fn extension_for_lowered(lowered: Seq<char>) -> Option<Seq<char>> {
    match lookup_from(canonical(), lowered, 0) {
        Some(ext) => Some(ext),
        None => lookup_from(swapped(formats()), lowered, 0),
    }
}

fn lookup(table: &Vec<(&'static str, &'static str)>, k: &[char], swap: bool) -> (r: Option<&'static str>)
    ensures
        match r {
            Some(v) => lookup_from(
                if swap {
                    swapped(str_pairs(table@))
                } else {
                    str_pairs(table@)
                },
                k@,
                0,
            ) == Some(v@),
            None => lookup_from(
                if swap {
                    swapped(str_pairs(table@))
                } else {
                    str_pairs(table@)
                },
                k@,
                0,
            ) is None,
        },
{
    let ghost t = if swap {
        swapped(str_pairs(table@))
    } else {
        str_pairs(table@)
    };
    let n = table.len();
    let mut i: usize = 0;
    while i < n
        invariant
            i <= n == table@.len() == t.len(),
            t == (if swap {
                swapped(str_pairs(table@))
            } else {
                str_pairs(table@)
            }),
            lookup_from(t, k@, 0) == lookup_from(t, k@, i as int),
        decreases n - i,
    {
        let (a, b) = table[i];
        let (key, value) = if swap {
            (b, a)
        } else {
            (a, b)
        };
        assert(t[i as int] == (key@, value@));
        if eq_chars(chars_of(key).as_slice(), k) {
            return Some(value);
        }
        i += 1;
    }
    None
}

/// The MIME type for an extension that is already lowercase, or `None` if the app does not
/// handle it.
pub fn mime_for_lowercase_extension(lowered: &str) -> (r: Option<&'static str>)
    ensures
        match r {
            Some(m) => mime_for_lowered(lowered@) == Some(m@),
            None => mime_for_lowered(lowered@) is None,
        },
{
    let table = format_table();
    lookup(&table, chars_of(lowered).as_slice(), false)
}

/// The MIME type for a file extension, compared in lowercase, or `None` if the app does not
/// handle it.
pub fn mime_for_extension(extension: &str) -> (r: Option<&'static str>)
    ensures
        match r {
            Some(m) => mime_for_lowered(lowercase(extension@)) == Some(m@),
            None => mime_for_lowered(lowercase(extension@)) is None,
        },
        is_lower_ascii(extension@) ==> match r {
            Some(m) => mime_for_lowered(extension@) == Some(m@),
            None => mime_for_lowered(extension@) is None,
        },
        r matches Some(m) ==> mimes().contains(m@),
{
    let lowered = to_lowercase(extension);
    assert(is_lower_ascii(extension@) ==> lowered@ =~= extension@);
    proof {
        let k = lowercase(extension@);
        if mime_for_lowered(k) is Some {
            lemma_lookup_entry(formats(), k, 0);
            let j = choose|j: int| 0 <= j < formats().len() && formats()[j].0 == k && lookup_from(formats(), k, 0) == Some(#[trigger] formats()[j].1);
            assert(mimes()[j] == formats()[j].1);
        }
    }
    mime_for_lowercase_extension(lowered.as_str())
}

/// The extension to save a MIME type under, for a type already trimmed and lowercase, or `None`
/// if the app does not handle it.
pub fn extension_for_lowercase_mime(lowered: &str) -> (r: Option<&'static str>)
    ensures
        match r {
            Some(e) => extension_for_lowered(lowered@) == Some(e@),
            None => extension_for_lowered(lowered@) is None,
        },
{
    let k = chars_of(lowered);
    let canon = canonical_table();
    if let Some(ext) = lookup(&canon, k.as_slice(), false) {
        return Some(ext);
    }
    let table = format_table();
    lookup(&table, k.as_slice(), true)
}

/// The extension to save a given MIME type under, trimmed and compared in lowercase, or `None` if
/// the app does not handle it.
pub fn extension_for_mime(mime: &str) -> (r: Option<&'static str>)
    ensures
        match r {
            Some(e) => extension_for_lowered(lowercase(trim(mime@))) == Some(e@),
            None => extension_for_lowered(lowercase(trim(mime@))) is None,
        },
        r matches Some(e) ==> is_lower_ascii(e@),
        mimes().contains(mime@) ==> r is Some,
{
    let trimmed = string_of(trim_chars(chars_of(mime).as_slice()).as_slice());
    let lowered = to_lowercase(trimmed.as_str());
    proof {
        saved_extensions_are_lower_ascii(lowered@);
        if mimes().contains(mime@) {
            every_readable_type_is_writable(mime@);
            assert(trimmed@ == mime@);
            assert(lowered@ =~= mime@);
        }
    }
    extension_for_lowercase_mime(lowered.as_str())
}

/// Lowercase ASCII text: no character outside ASCII, and none from 'A' to 'Z'.
pub open spec fn is_lower_ascii(s: Seq<char>) -> bool {
    forall|i: int| 0 <= i < s.len() ==> is_ascii(#[trigger] s[i]) && !('A' <= s[i] && s[i] <= 'Z')
}

proof fn saved_extensions_are_lower_ascii(m: Seq<char>)
    ensures
        extension_for_lowered(m) matches Some(e) ==> is_lower_ascii(e),
{
    let f = formats();
    let c = canonical();
    reveal_strlit("jpg");
    reveal_strlit("png");
    reveal_strlit("tiff");
    reveal_strlit("ico");
    reveal_strlit("apng");
    reveal_strlit("jpeg");
    reveal_strlit("jpe");
    reveal_strlit("jif");
    reveal_strlit("jfif");
    reveal_strlit("webp");
    reveal_strlit("gif");
    reveal_strlit("svg");
    reveal_strlit("bmp");
    reveal_strlit("avif");
    reveal_strlit("heic");
    reveal_strlit("heif");
    reveal_strlit("jxl");
    reveal_strlit("tif");
    if lookup_from(c, m, 0) is Some {
        lemma_lookup_entry(c, m, 0);
        let j = choose|j: int| 0 <= j < c.len() && c[j].0 == m && lookup_from(c, m, 0) == Some(#[trigger] c[j].1);
        assert(j == 0 || j == 1 || j == 2 || j == 3);
    } else if lookup_from(swapped(f), m, 0) is Some {
        let s = swapped(f);
        lemma_lookup_entry(s, m, 0);
        let j = choose|j: int| 0 <= j < s.len() && s[j].0 == m && lookup_from(s, m, 0) == Some(#[trigger] s[j].1);
        assert(s[j] == (f[j].1, f[j].0));
        assert(j == 0 || j == 1 || j == 2 || j == 3 || j == 4 || j == 5 || j == 6 || j == 7 || j == 8
            || j == 9 || j == 10 || j == 11 || j == 12 || j == 13 || j == 14 || j == 15 || j == 16 || j == 17);
    }
}

/// Every type in the table can be written back out: a file that can be read in is never refused
/// on its way to disk.
pub proof fn every_readable_format_is_writable(i: int)
    requires
        0 <= i < formats().len(),
    ensures
        extension_for_lowered(formats()[i].1) is Some,
{
    let f = formats();
    let s = swapped(f);
    assert(s.len() == f.len());
    assert(s[i] == (f[i].1, f[i].0));
    lemma_lookup_finds(s, f[i].1, 0, i);
}

/// The MIME types the table lists.
pub open spec fn mimes() -> Seq<Seq<char>> {
    formats().map_values(|p: (Seq<char>, Seq<char>)| p.1)
}

/// A key found by a lookup is the first one of an entry at or after `i` that holds the value.
proof fn lemma_lookup_entry(table: Seq<(Seq<char>, Seq<char>)>, k: Seq<char>, i: int)
    requires
        0 <= i,
        lookup_from(table, k, i) is Some,
    ensures
        exists|j: int| i <= j < table.len() && table[j].0 == k && lookup_from(table, k, i) == Some(#[trigger] table[j].1),
    decreases table.len() - i,
{
    if table[i].0 != k {
        lemma_lookup_entry(table, k, i + 1);
    }
}

/// A key found at `at` and nowhere before gives that entry's value.
proof fn lemma_lookup_first(table: Seq<(Seq<char>, Seq<char>)>, k: Seq<char>, i: int, at: int)
    requires
        0 <= i <= at < table.len(),
        table[at].0 == k,
        forall|j: int| i <= j < at ==> table[j].0 != k,
    ensures
        lookup_from(table, k, i) == Some(table[at].1),
    decreases at - i,
{
    if i < at {
        lemma_lookup_first(table, k, i + 1, at);
    }
}

/// No two entries of the table share an extension, so each extension reads as its own type.
proof fn lemma_each_extension_reads_its_own_type(at: int)
    requires
        0 <= at < formats().len(),
    ensures
        mime_for_lowered(formats()[at].0) == Some(formats()[at].1),
{
    reveal_strlit("png");
    reveal_strlit("apng");
    reveal_strlit("jpg");
    reveal_strlit("jpeg");
    reveal_strlit("jpe");
    reveal_strlit("jif");
    reveal_strlit("jfif");
    reveal_strlit("webp");
    reveal_strlit("gif");
    reveal_strlit("svg");
    reveal_strlit("ico");
    reveal_strlit("bmp");
    reveal_strlit("avif");
    reveal_strlit("heic");
    reveal_strlit("heif");
    reveal_strlit("jxl");
    reveal_strlit("tif");
    reveal_strlit("tiff");
    let f = formats();
    assert forall|j: int| 0 <= j < at implies f[j].0 != f[at].0 by {
        let (x, y) = (f[j].0, f[at].0);
        assert(j == 0 || j == 1 || j == 2 || j == 3 || j == 4 || j == 5 || j == 6 || j == 7 || j == 8
            || j == 9 || j == 10 || j == 11 || j == 12 || j == 13 || j == 14 || j == 15 || j == 16);
        assert(x.len() != y.len() || x[0] != y[0] || x[1] != y[1] || x[2] != y[2] || x.last() != y.last());
    }
    lemma_lookup_first(f, f[at].0, 0, at);
}

/// What the app saves under an extension reads back from it: the extension it picks for a type
/// is one it reads, and reading that extension gives the same type again, for every type of the
/// table but APNG, which is saved as PNG. The types and extensions here are trimmed and lowercase,
/// as [`extension_for_mime`] compares a type and returns an extension, and as
/// [`mime_for_extension`] reads a lowercase extension.
pub proof fn saved_extensions_read_back(m: Seq<char>)
    requires
        extension_for_lowered(m) is Some,
    ensures
        mime_for_lowered(extension_for_lowered(m)->0) is Some,
        mimes().contains(m) && m != "image/apng"@ ==> mime_for_lowered(extension_for_lowered(m)->0) == Some(m),
{
    let f = formats();
    let c = canonical();
    reveal_strlit("image/jpeg");
    reveal_strlit("image/apng");
    reveal_strlit("image/tiff");
    reveal_strlit("image/vnd.microsoft.icon");
    reveal_strlit("jpg");
    reveal_strlit("png");
    reveal_strlit("tiff");
    reveal_strlit("ico");
    match lookup_from(c, m, 0) {
        Some(e) => {
            lemma_lookup_entry(c, m, 0);
            let j = choose|j: int| 0 <= j < c.len() && c[j].0 == m && lookup_from(c, m, 0) == Some(#[trigger] c[j].1);
            if j == 0 {
                lemma_each_extension_reads_its_own_type(2);
            } else if j == 1 {
                lemma_each_extension_reads_its_own_type(0);
            } else if j == 2 {
                lemma_each_extension_reads_its_own_type(17);
            } else {
                lemma_each_extension_reads_its_own_type(10);
                reveal_strlit("image/png");
                reveal_strlit("image/webp");
                reveal_strlit("image/gif");
                reveal_strlit("image/svg+xml");
                reveal_strlit("image/x-icon");
                reveal_strlit("image/bmp");
                reveal_strlit("image/avif");
                reveal_strlit("image/heic");
                reveal_strlit("image/heif");
                reveal_strlit("image/jxl");
                assert(!mimes().contains(m)) by {
                    if mimes().contains(m) {
                        let q = choose|q: int| 0 <= q < mimes().len() && mimes()[q] == m;
                        assert(mimes()[q] == f[q].1);
                        assert(m.len() == 24);
                    }
                }
            }
        },
        None => {
            let s = swapped(f);
            lemma_lookup_entry(s, m, 0);
            let j = choose|j: int| 0 <= j < s.len() && s[j].0 == m && lookup_from(s, m, 0) == Some(#[trigger] s[j].1);
            assert(s[j] == (f[j].1, f[j].0));
            lemma_each_extension_reads_its_own_type(j);
        },
    }
}

/// Every type the app reads a file as can be written back out: the types of the table are
/// lowercase ASCII with nothing to trim, and each has an extension to be saved under. With the
/// contracts of [`mime_for_extension`] (what it returns is a type of the table) and
/// [`extension_for_mime`] (a type of the table gets an extension), a type read from a file is
/// never refused on its way to disk.
pub proof fn every_readable_type_is_writable(m: Seq<char>)
    requires
        mimes().contains(m),
    ensures
        is_lower_ascii(m),
        trim(m) == m,
        extension_for_lowered(m) is Some,
{
    let f = formats();
    let j = choose|j: int| 0 <= j < mimes().len() && mimes()[j] == m;
    assert(mimes()[j] == f[j].1);
    every_readable_format_is_writable(j);
    reveal_strlit("image/png");
    reveal_strlit("image/apng");
    reveal_strlit("image/jpeg");
    reveal_strlit("image/webp");
    reveal_strlit("image/gif");
    reveal_strlit("image/svg+xml");
    reveal_strlit("image/x-icon");
    reveal_strlit("image/bmp");
    reveal_strlit("image/avif");
    reveal_strlit("image/heic");
    reveal_strlit("image/heif");
    reveal_strlit("image/jxl");
    reveal_strlit("image/tiff");
    assert(j == 0 || j == 1 || j == 2 || j == 3 || j == 4 || j == 5 || j == 6 || j == 7 || j == 8
        || j == 9 || j == 10 || j == 11 || j == 12 || j == 13 || j == 14 || j == 15 || j == 16 || j == 17);
    assert(m[0] == 'i');
    assert(!is_white_space(m.last()));
    assert(trim_start(m) == m);
}

/// A key present at or after `i` is found.
pub proof fn lemma_lookup_finds(table: Seq<(Seq<char>, Seq<char>)>, k: Seq<char>, i: int, at: int)
    requires
        0 <= i <= at < table.len(),
        table[at].0 == k,
    ensures
        lookup_from(table, k, i) is Some,
    decreases at - i,
{
    if table[i].0 != k {
        lemma_lookup_finds(table, k, i + 1, at);
    }
}

/// Code-point order on texts, which is also the byte order of their UTF-8.
pub open spec fn lex_lt(a: Seq<char>, b: Seq<char>) -> bool
    decreases a.len(),
{
    if a.len() == 0 {
        b.len() > 0
    } else if b.len() == 0 {
        false
    } else if a[0] != b[0] {
        a[0] < b[0]
    } else {
        lex_lt(a.drop_first(), b.drop_first())
    }
}

/// Each text comes strictly before the next.
pub open spec fn strictly_sorted(v: Seq<Seq<char>>) -> bool {
    forall|i: int, j: int| 0 <= i < j < v.len() ==> lex_lt(v[i], v[j])
}

/// The extensions the table lists.
pub open spec fn extensions() -> Seq<Seq<char>> {
    formats().map_values(|p: (Seq<char>, Seq<char>)| p.0)
}

pub proof fn lemma_lex_irreflexive(a: Seq<char>)
    ensures
        !lex_lt(a, a),
    decreases a.len(),
{
    if a.len() > 0 {
        lemma_lex_irreflexive(a.drop_first());
    }
}

pub proof fn lemma_lex_total(a: Seq<char>, b: Seq<char>)
    ensures
        a == b || lex_lt(a, b) || lex_lt(b, a),
        !(lex_lt(a, b) && lex_lt(b, a)),
    decreases a.len(),
{
    if a.len() > 0 && b.len() > 0 {
        lemma_lex_total(a.drop_first(), b.drop_first());
        if a[0] == b[0] {
            if a.drop_first() == b.drop_first() {
                assert(a == seq![a[0]] + a.drop_first());
                assert(b == seq![b[0]] + b.drop_first());
            }
        }
    } else if a.len() == 0 && b.len() == 0 {
        assert(a == b);
    }
}

pub proof fn lemma_lex_transitive(a: Seq<char>, b: Seq<char>, c: Seq<char>)
    requires
        lex_lt(a, b),
        lex_lt(b, c),
    ensures
        lex_lt(a, c),
    decreases a.len(),
{
    if a.len() > 0 && b.len() > 0 && c.len() > 0 && a[0] == b[0] && b[0] == c[0] {
        lemma_lex_transitive(a.drop_first(), b.drop_first(), c.drop_first());
    }
}

pub fn lex_lt_chars(a: &[char], b: &[char]) -> (r: bool)
    ensures
        r == lex_lt(a@, b@),
{
    let n = if a.len() < b.len() {
        a.len()
    } else {
        b.len()
    };
    let mut i: usize = 0;
    assert(a@.skip(0) == a@);
    assert(b@.skip(0) == b@);
    while i < n
        invariant
            i <= n,
            n <= a@.len(),
            n <= b@.len(),
            lex_lt(a@, b@) == lex_lt(a@.skip(i as int), b@.skip(i as int)),
        decreases n - i,
    {
        let ghost sa = a@.skip(i as int);
        let ghost sb = b@.skip(i as int);
        assert(sa.drop_first() == a@.skip(i + 1));
        assert(sb.drop_first() == b@.skip(i + 1));
        if a[i] != b[i] {
            return a[i] < b[i];
        }
        i += 1;
    }
    b.len() > i
}

/// Every extension the app handles, sorted and without repeats, separated by `, `; for messages
/// that need to say what is accepted.
pub fn supported_extensions() -> (r: String)
    ensures
        exists|names: Seq<Seq<char>>|
            strictly_sorted(names) && names.to_set() == extensions().to_set() && r@ == join(
                names,
                ", "@,
            ),
{
    let table = format_table();
    let ghost exts = extensions();
    let mut names: Vec<Vec<char>> = Vec::new();
    let n = table.len();
    for i in 0..n
        invariant
            n == table@.len() == exts.len(),
            exts == extensions(),
            str_pairs(table@) == formats(),
            strictly_sorted(views(names@)),
            views(names@).to_set() == exts.take(i as int).to_set(),
    {
        let x = chars_of(table[i].0);
        assert(x@ == exts[i as int]);
        let ghost v = views(names@);
        let m = names.len();
        let mut p: usize = 0;
        while p < m && lex_lt_chars(names[p].as_slice(), x.as_slice())
            invariant
                p <= m == names@.len() == v.len(),
                v == views(names@),
                forall|q: int| 0 <= q < p ==> lex_lt(v[q], x@),
            decreases m - p,
        {
            p += 1;
        }
        assert(exts.take(i + 1) == exts.take(i as int).push(x@));
        proof {
            exts.take(i as int).lemma_push_to_set_commute(x@);
        }
        if p < m && eq_chars(names[p].as_slice(), x.as_slice()) {
            assert(v[p as int] == x@);
            assert(v.contains(x@));
            assert(exts.take(i + 1).to_set() == v.to_set()) by {
                assert(exts.take(i + 1).to_set() == exts.take(i as int).to_set().insert(x@));
                assert(v.to_set().contains(x@));
                assert(v.to_set().insert(x@) == v.to_set());
            }
        } else {
            proof {
                if p < m {
                    lemma_lex_total(v[p as int], x@);
                    assert(lex_lt(x@, v[p as int]));
                    assert forall|q: int| p <= q < m implies lex_lt(x@, v[q]) by {
                        if q > p {
                            lemma_lex_transitive(x@, v[p as int], v[q]);
                        }
                    }
                }
            }
            names.insert(p, x);
            proof {
                let w = views(names@);
                assert(w == v.insert(p as int, x@));
                assert forall|a: int, b: int| 0 <= a < b < w.len() implies lex_lt(w[a], w[b]) by {
                    if b < p {
                    } else if a < p && b == p {
                    } else if a < p && b > p {
                        assert(w[b] == v[b - 1]);
                    } else if a == p {
                        assert(w[b] == v[b - 1]);
                    } else {
                        assert(w[a] == v[a - 1]);
                        assert(w[b] == v[b - 1]);
                    }
                }
                assert(w.to_set() == v.to_set().insert(x@)) by {
                    assert forall|y: Seq<char>| w.to_set().contains(y) <==> v.to_set().insert(x@).contains(y) by {
                        if w.to_set().contains(y) {
                            let j = choose|j: int| 0 <= j < w.len() && w[j] == y;
                            if j < p {
                                assert(v[j] == y);
                            } else if j > p {
                                assert(v[j - 1] == y);
                            }
                        }
                        if v.to_set().contains(y) {
                            let j = choose|j: int| 0 <= j < v.len() && v[j] == y;
                            if j < p {
                                assert(w[j] == y);
                            } else {
                                assert(w[j + 1] == y);
                            }
                        }
                        if y == x@ {
                            assert(w[p as int] == y);
                        }
                    }
                }
                assert(exts.take(i + 1).to_set() == exts.take(i as int).to_set().insert(x@));
            }
        }
    }
    assert(exts.take(n as int) == exts);
    let sep = chars_of(", ");
    let joined = join_chars(&names, sep.as_slice());
    string_of(joined.as_slice())
}

} // verus!
