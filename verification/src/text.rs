//! Text as sequences of characters: trimming, line splitting, joining, prefix and substring tests.
//!
//! Everything the configuration editors do to a file goes through these, so each one states exactly
//! what it returns over `Seq<char>`.

use vstd::prelude::*;

verus! {

/// The characters with the Unicode `White_Space` property, which is what `char::is_whitespace`
/// and `str::trim` test for.
pub open spec fn is_white_space(c: char) -> bool {
    let n = c as u32;
    ||| 9 <= n <= 13
    ||| n == 32
    ||| n == 0x85
    ||| n == 0xA0
    ||| n == 0x1680
    ||| 0x2000 <= n <= 0x200A
    ||| n == 0x2028
    ||| n == 0x2029
    ||| n == 0x202F
    ||| n == 0x205F
    ||| n == 0x3000
}

/// `s` without its leading white space.
pub open spec fn trim_start(s: Seq<char>) -> Seq<char>
    decreases s.len(),
{
    if s.len() > 0 && is_white_space(s[0]) {
        trim_start(s.drop_first())
    } else {
        s
    }
}

/// `s` without its trailing white space.
pub open spec fn trim_end(s: Seq<char>) -> Seq<char>
    decreases s.len(),
{
    if s.len() > 0 && is_white_space(s.last()) {
        trim_end(s.drop_last())
    } else {
        s
    }
}

/// `s` without leading and trailing white space.
pub open spec fn trim(s: Seq<char>) -> Seq<char> {
    trim_end(trim_start(s))
}

/// Whether `s` begins with `p`.
pub open spec fn starts_with(s: Seq<char>, p: Seq<char>) -> bool {
    p.len() <= s.len() && s.take(p.len() as int) == p
}

/// Whether `s` ends with `p`.
pub open spec fn ends_with(s: Seq<char>, p: Seq<char>) -> bool {
    p.len() <= s.len() && s.skip(s.len() - p.len()) == p
}

/// Whether `p` occurs in `s` at position `i`.
pub open spec fn occurs_at(s: Seq<char>, p: Seq<char>, i: int) -> bool {
    0 <= i && i + p.len() <= s.len() && s.subrange(i, i + p.len()) == p
}

/// The first position at or after `i` at which `p` occurs in `s`.
pub open spec fn find_from(s: Seq<char>, p: Seq<char>, i: int) -> Option<int>
    decreases s.len() + 1 - i,
{
    if i < 0 || i > s.len() {
        None
    } else if occurs_at(s, p, i) {
        Some(i)
    } else {
        find_from(s, p, i + 1)
    }
}

/// The first position at which `p` occurs in `s`, as `str::find` reports it.
pub open spec fn find_first(s: Seq<char>, p: Seq<char>) -> Option<int> {
    find_from(s, p, 0)
}

/// Whether `p` occurs anywhere in `s`.
pub open spec fn contains_seq(s: Seq<char>, p: Seq<char>) -> bool {
    exists|i: int| occurs_at(s, p, i)
}

/// The ASCII lowercase of one character; every other character is left as it is.
pub open spec fn ascii_lower(c: char) -> char {
    if 'A' <= c && c <= 'Z' {
        ((c as u32) + 32) as char
    } else {
        c
    }
}

/// Equality up to ASCII case, as `str::eq_ignore_ascii_case` compares.
pub open spec fn eq_ignore_ascii_case(a: Seq<char>, b: Seq<char>) -> bool {
    a.len() == b.len() && forall|i: int| 0 <= i < a.len() ==> ascii_lower(#[trigger] a[i]) == ascii_lower(b[i])
}

/// Index of the first `'\n'` in `s`, or `s.len()` when there is none.
pub open spec fn newline_index(s: Seq<char>) -> int
    decreases s.len(),
{
    if s.len() == 0 {
        0
    } else if s[0] == '\n' {
        0
    } else {
        1 + newline_index(s.drop_first())
    }
}

/// A line without the `'\r'` of a `"\r\n"` ending.
pub open spec fn strip_cr(l: Seq<char>) -> Seq<char> {
    if l.len() > 0 && l.last() == '\r' {
        l.drop_last()
    } else {
        l
    }
}

/// The lines of `s`, as `str::lines` yields them: split at `'\n'`, a `'\r'` directly before a
/// `'\n'` dropped, and no empty last line for a text that ends in a line ending.
pub open spec fn lines(s: Seq<char>) -> Seq<Seq<char>>
    decreases s.len(),
{
    if s.len() == 0 {
        seq![]
    } else {
        let i = newline_index(s);
        if i >= s.len() {
            seq![s]
        } else {
            proof {
                lemma_newline_index(s);
            }
            seq![strip_cr(s.take(i))] + lines(s.skip(i + 1))
        }
    }
}

/// The character sequences held by a vector of character vectors.
pub open spec fn views(v: Seq<Vec<char>>) -> Seq<Seq<char>> {
    v.map_values(|x: Vec<char>| x@)
}

/// The pieces of `ls` with `sep` between each two.
pub open spec fn join(ls: Seq<Seq<char>>, sep: Seq<char>) -> Seq<char>
    decreases ls.len(),
{
    if ls.len() == 0 {
        seq![]
    } else if ls.len() == 1 {
        ls[0]
    } else {
        join(ls.drop_last(), sep) + sep + ls.last()
    }
}

pub open spec fn crlf() -> Seq<char> {
    seq!['\r', '\n']
}

pub open spec fn lf() -> Seq<char> {
    seq!['\n']
}

/// The line ending a file uses: `"\r\n"` as soon as one occurs, `"\n"` otherwise.
pub open spec fn newline_of(s: Seq<char>) -> Seq<char> {
    if contains_seq(s, crlf()) {
        crlf()
    } else {
        lf()
    }
}

/// A file put back together from its lines: joined by the file's own line ending, with a final
/// line ending exactly when the file had one.
pub open spec fn reassemble(file_text: Seq<char>, ls: Seq<Seq<char>>) -> Seq<char> {
    let nl = newline_of(file_text);
    if file_text.len() > 0 && file_text.last() == '\n' {
        join(ls, nl) + nl
    } else {
        join(ls, nl)
    }
}

/// Trimming twice trims nothing more.
pub proof fn lemma_trim_idempotent(s: Seq<char>)
    ensures
        trim(trim(s)) == trim(s),
{
    lemma_trim_start_shape(s);
    let ts = trim_start(s);
    lemma_trim_end_shape(ts);
    let u = trim_end(ts);
    if u.len() > 0 {
        assert(u[0] == ts[0]);
    }
    assert(trim_start(u) == u);
    assert(trim_end(u) == u);
}

/// Trimming the start leaves a suffix that does not begin with white space.
pub proof fn lemma_trim_start_shape(s: Seq<char>)
    ensures
        trim_start(s).len() <= s.len(),
        trim_start(s) == s.skip(s.len() - trim_start(s).len()),
        trim_start(s).len() == 0 || !is_white_space(trim_start(s)[0]),
    decreases s.len(),
{
    if s.len() > 0 && is_white_space(s[0]) {
        lemma_trim_start_shape(s.drop_first());
        assert(s.drop_first().skip(s.drop_first().len() - trim_start(s).len()) == s.skip(
            s.len() - trim_start(s).len(),
        ));
    } else {
        assert(s.skip(0) == s);
    }
}

/// Trimming the end leaves a prefix that does not end with white space.
pub proof fn lemma_trim_end_shape(s: Seq<char>)
    ensures
        trim_end(s).len() <= s.len(),
        trim_end(s) == s.take(trim_end(s).len() as int),
        trim_end(s).len() == 0 || !is_white_space(trim_end(s).last()),
    decreases s.len(),
{
    if s.len() > 0 && is_white_space(s.last()) {
        lemma_trim_end_shape(s.drop_last());
        assert(s.drop_last().take(trim_end(s).len() as int) == s.take(trim_end(s).len() as int));
    } else {
        assert(s.take(s.len() as int) == s);
    }
}

pub proof fn lemma_newline_index(s: Seq<char>)
    ensures
        0 <= newline_index(s) <= s.len(),
        forall|k: int| 0 <= k < newline_index(s) ==> s[k] != '\n',
        newline_index(s) < s.len() ==> s[newline_index(s)] == '\n',
    decreases s.len(),
{
    if s.len() > 0 && s[0] != '\n' {
        lemma_newline_index(s.drop_first());
        assert forall|k: int| 0 <= k < newline_index(s) implies s[k] != '\n' by {
            if k > 0 {
                assert(s[k] == s.drop_first()[k - 1]);
            }
        }
    }
}

pub proof fn lemma_newline_index_is(s: Seq<char>, j: int)
    requires
        0 <= j <= s.len(),
        forall|k: int| 0 <= k < j ==> s[k] != '\n',
        j < s.len() ==> s[j] == '\n',
    ensures
        newline_index(s) == j,
    decreases s.len(),
{
    if s.len() > 0 && j > 0 {
        lemma_newline_index_is(s.drop_first(), j - 1);
    }
}

/// Lines never hold a `'\n'`.
pub proof fn lemma_lines_have_no_newline(s: Seq<char>)
    ensures
        forall|i: int, k: int|
            0 <= i < lines(s).len() && 0 <= k < lines(s)[i].len() ==> #[trigger] lines(s)[i][k] != '\n',
    decreases s.len(),
{
    if s.len() > 0 {
        lemma_newline_index(s);
        let i = newline_index(s);
        if i < s.len() {
            lemma_lines_have_no_newline(s.skip(i + 1));
            let rest = lines(s.skip(i + 1));
            assert forall|a: int, k: int|
                0 <= a < lines(s).len() && 0 <= k < lines(s)[a].len() implies #[trigger] lines(s)[a][k] != '\n' by {
                if a > 0 {
                    assert(lines(s)[a] == rest[a - 1]);
                }
            }
        }
    }
}

pub fn is_white_space_char(c: char) -> (b: bool)
    ensures
        b == is_white_space(c),
{
    let n = c as u32;
    (9 <= n && n <= 13) || n == 32 || n == 0x85 || n == 0xA0 || n == 0x1680 || (0x2000 <= n && n
        <= 0x200A) || n == 0x2028 || n == 0x2029 || n == 0x202F || n == 0x205F || n == 0x3000
}

/// A character in ASCII lowercase: 'A' to 'Z' become 'a' to 'z', every other character is
/// unchanged.
pub(crate) fn ascii_lower_char(c: char) -> (r: char)
    ensures
        r == ascii_lower(c),
{
    if 'A' <= c && c <= 'Z' {
        let b: u8 = c as u8;
        (b + 32) as char
    } else {
        c
    }
}

/// The characters of `s`, in order.
pub fn chars_of(s: &str) -> (r: Vec<char>)
    ensures
        r@ == s@,
{
    let mut out: Vec<char> = Vec::new();
    for c in it: s.chars()
        invariant
            out@ == it.seq().take(it.index() as int),
            it.seq() == s@,
    {
        out.push(c);
    }
    out
}

/// The lowercase of a text as `str::to_lowercase` computes it, by the Unicode `Lowercase`
/// mapping.
pub uninterp spec fn lowercase(s: Seq<char>) -> Seq<char>;

/// An ASCII character.
pub open spec fn is_ascii(c: char) -> bool {
    (c as u32) < 128
}

/// `str::to_lowercase`: the text mapped to lowercase by the Unicode tables. Its result depends on
/// the text alone, and is named [`lowercase`]. Of that mapping the contract states two facts its
/// documentation and tables give: an ASCII text is lowered letter by letter ('A' to 'Z' become 'a'
/// to 'z', all else stays), and no character lowers to one of 'A' to 'Z'. What it does to other
/// characters is left to the name.
#[verifier::external_body]
pub(crate) fn to_lowercase(s: &str) -> (r: String)
    ensures
        r@ == lowercase(s@),
        (forall|i: int| 0 <= i < s@.len() ==> is_ascii(#[trigger] s@[i])) ==> r@ == s@.map_values(
            |c: char| ascii_lower(c),
        ),
        forall|i: int| 0 <= i < r@.len() ==> !('A' <= #[trigger] r@[i] && r@[i] <= 'Z'),
{
    s.to_lowercase()
}

/// Appends one character to a `String` (`String::push`).
#[verifier::external_body]
fn push_char(s: &mut String, c: char)
    ensures
        final(s)@ == old(s)@.push(c),
{
    s.push(c);
}

/// A `String` holding exactly the given characters.
pub fn string_of(v: &[char]) -> (r: String)
    ensures
        r@ == v@,
{
    let mut out = String::new();
    let n = v.len();
    for i in 0..n
        invariant
            n == v@.len(),
            out@ == v@.take(i as int),
    {
        push_char(&mut out, v[i]);
        assert(v@.take(i + 1) == v@.take(i as int).push(v@[i as int]));
    }
    assert(v@.take(n as int) == v@);
    out
}

/// The characters `v[lo..hi]` as a vector of their own.
pub fn slice_range(v: &[char], lo: usize, hi: usize) -> (r: Vec<char>)
    requires
        lo <= hi <= v@.len(),
    ensures
        r@ == v@.subrange(lo as int, hi as int),
{
    let mut out: Vec<char> = Vec::new();
    let mut i = lo;
    while i < hi
        invariant
            lo <= i <= hi <= v@.len(),
            out@ == v@.subrange(lo as int, i as int),
        decreases hi - i,
    {
        out.push(v[i]);
        assert(v@.subrange(lo as int, i + 1) == v@.subrange(lo as int, i as int).push(v@[i as int]));
        i += 1;
    }
    out
}

/// A copy of `v`.
pub fn copy_chars(v: &[char]) -> (r: Vec<char>)
    ensures
        r@ == v@,
{
    let r = slice_range(v, 0, v.len());
    assert(v@.subrange(0, v@.len() as int) == v@);
    r
}

/// Appends `b` to `a`.
pub fn extend(a: &mut Vec<char>, b: &[char])
    ensures
        final(a)@ == old(a)@ + b@,
{
    let n = b.len();
    for i in 0..n
        invariant
            n == b@.len(),
            a@ == old(a)@ + b@.take(i as int),
    {
        a.push(b[i]);
        assert(b@.take(i + 1) == b@.take(i as int).push(b@[i as int]));
    }
    assert(b@.take(n as int) == b@);
}

proof fn lemma_trim_start_step(s: Seq<char>, lo: int)
    requires
        0 <= lo < s.len(),
        is_white_space(s[lo]),
    ensures
        trim_start(s.subrange(lo, s.len() as int)) == trim_start(s.subrange(lo + 1, s.len() as int)),
{
    assert(s.subrange(lo, s.len() as int).drop_first() == s.subrange(lo + 1, s.len() as int));
}

proof fn lemma_trim_end_step(s: Seq<char>, lo: int, hi: int)
    requires
        0 <= lo < hi <= s.len(),
        is_white_space(s[hi - 1]),
    ensures
        trim_end(s.subrange(lo, hi)) == trim_end(s.subrange(lo, hi - 1)),
{
    assert(s.subrange(lo, hi).drop_last() == s.subrange(lo, hi - 1));
}

/// `v` without leading and trailing white space.
pub fn trim_chars(v: &[char]) -> (r: Vec<char>)
    ensures
        r@ == trim(v@),
{
    let n = v.len();
    let mut lo: usize = 0;
    assert(v@.subrange(0, n as int) == v@);
    while lo < n && is_white_space_char(v[lo])
        invariant
            lo <= n == v@.len(),
            trim_start(v@) == trim_start(v@.subrange(lo as int, n as int)),
        decreases n - lo,
    {
        proof {
            lemma_trim_start_step(v@, lo as int);
        }
        lo += 1;
    }
    let ghost t = v@.subrange(lo as int, n as int);
    assert(trim_start(t) == t);
    let mut hi: usize = n;
    while hi > lo && is_white_space_char(v[hi - 1])
        invariant
            lo <= hi <= n == v@.len(),
            t == v@.subrange(lo as int, n as int),
            trim_end(t) == trim_end(v@.subrange(lo as int, hi as int)),
        decreases hi - lo,
    {
        proof {
            lemma_trim_end_step(v@, lo as int, hi as int);
        }
        hi -= 1;
    }
    let r = slice_range(v, lo, hi);
    assert(trim_end(r@) == r@);
    r
}

/// Whether `s` begins with `p`.
pub fn starts_with_chars(s: &[char], p: &[char]) -> (b: bool)
    ensures
        b == starts_with(s@, p@),
{
    if p.len() > s.len() {
        return false;
    }
    let n = p.len();
    for i in 0..n
        invariant
            n == p@.len() <= s@.len(),
            forall|k: int| 0 <= k < i ==> s@[k] == p@[k],
    {
        if s[i] != p[i] {
            assert(s@.take(n as int)[i as int] != p@[i as int]);
            return false;
        }
    }
    assert(s@.take(n as int) == p@);
    true
}

/// Whether `s` ends with `p`.
pub fn ends_with_chars(s: &[char], p: &[char]) -> (b: bool)
    ensures
        b == ends_with(s@, p@),
{
    if p.len() > s.len() {
        return false;
    }
    let n = p.len();
    let off = s.len() - n;
    let mut i: usize = 0;
    while i < n
        invariant
            i <= n == p@.len() <= s@.len(),
            off + n == s@.len(),
            s@.len() == s.len(),
            forall|k: int| 0 <= k < i ==> s@[off + k] == p@[k],
        decreases n - i,
    {
        if s[off + i] != p[i] {
            assert(s@.skip(off as int)[i as int] != p@[i as int]);
            return false;
        }
        i += 1;
    }
    assert(s@.skip(off as int) == p@);
    true
}

/// Whether `p` occurs in `s` at `i`.
pub fn occurs_at_chars(s: &[char], p: &[char], i: usize) -> (b: bool)
    ensures
        b == occurs_at(s@, p@, i as int),
{
    if i > s.len() || p.len() > s.len() - i {
        return false;
    }
    let n = p.len();
    let mut k: usize = 0;
    while k < n
        invariant
            k <= n == p@.len(),
            i + n <= s@.len(),
            s@.len() == s.len(),
            forall|j: int| 0 <= j < k ==> s@[i + j] == p@[j],
        decreases n - k,
    {
        if s[i + k] != p[k] {
            assert(s@.subrange(i as int, i + n)[k as int] != p@[k as int]);
            return false;
        }
        k += 1;
    }
    assert(s@.subrange(i as int, i + n) == p@);
    true
}

/// The first position at which `p` occurs in `s`, if any.
pub fn find_chars(s: &[char], p: &[char]) -> (r: Option<usize>)
    ensures
        r matches Some(i) ==> find_first(s@, p@) == Some(i as int),
        r is None ==> find_first(s@, p@) is None,
        match r {
            Some(i) => occurs_at(s@, p@, i as int) && forall|j: int| 0 <= j < i ==> !occurs_at(s@, p@, j),
            None => !contains_seq(s@, p@),
        },
{
    let n = s.len();
    let mut i: usize = 0;
    while i < n
        invariant
            i <= n == s@.len(),
            forall|j: int| 0 <= j < i ==> !occurs_at(s@, p@, j),
            find_first(s@, p@) == find_from(s@, p@, i as int),
        decreases n - i,
    {
        if occurs_at_chars(s, p, i) {
            return Some(i);
        }
        i += 1;
    }
    if occurs_at_chars(s, p, n) {
        return Some(n);
    }
    assert(find_from(s@, p@, n + 1) is None);
    assert forall|j: int| !occurs_at(s@, p@, j) by {
        if 0 <= j && j + p@.len() <= s@.len() && j < n {
            assert(j < i);
        }
    }
    None
}

/// Whether `p` occurs anywhere in `s`.
pub fn contains_chars(s: &[char], p: &[char]) -> (b: bool)
    ensures
        b == contains_seq(s@, p@),
{
    match find_chars(s, p) {
        Some(_) => true,
        None => false,
    }
}

/// Whether `a` and `b` are equal up to ASCII case.
pub fn eq_ignore_ascii_case_chars(a: &[char], b: &[char]) -> (r: bool)
    ensures
        r == eq_ignore_ascii_case(a@, b@),
{
    if a.len() != b.len() {
        return false;
    }
    let n = a.len();
    for i in 0..n
        invariant
            n == a@.len() == b@.len(),
            forall|k: int| 0 <= k < i ==> ascii_lower(#[trigger] a@[k]) == ascii_lower(b@[k]),
    {
        if ascii_lower_char(a[i]) != ascii_lower_char(b[i]) {
            return false;
        }
    }
    true
}

/// Whether `a` and `b` hold the same characters.
pub fn eq_chars(a: &[char], b: &[char]) -> (r: bool)
    ensures
        r == (a@ == b@),
{
    if a.len() != b.len() {
        return false;
    }
    let n = a.len();
    for i in 0..n
        invariant
            n == a@.len() == b@.len(),
            forall|k: int| 0 <= k < i ==> a@[k] == b@[k],
    {
        if a[i] != b[i] {
            return false;
        }
    }
    assert(a@ == b@);
    true
}

/// The lines of `s`, as `str::lines` yields them.
pub fn lines_of(s: &[char]) -> (r: Vec<Vec<char>>)
    ensures
        views(r@) == lines(s@),
{
    let n = s.len();
    let mut out: Vec<Vec<char>> = Vec::new();
    let mut start: usize = 0;
    let mut i: usize = 0;
    assert(s@.skip(0) == s@);
    while i < n
        invariant
            start <= i <= n == s@.len(),
            forall|k: int| start <= k < i ==> s@[k] != '\n',
            views(out@) + lines(s@.skip(start as int)) == lines(s@),
        decreases n - i,
    {
        if s[i] == '\n' {
            let ghost rest = s@.skip(start as int);
            proof {
                lemma_newline_index_is(rest, i - start);
                assert(rest.take(i - start) == s@.subrange(start as int, i as int));
                assert(rest.skip(i - start + 1) == s@.skip(i + 1));
            }
            let raw = slice_range(s, start, i);
            let line = strip_cr_chars(raw);
            let ghost before = views(out@);
            out.push(line);
            proof {
                assert(views(out@) == before.push(strip_cr(s@.subrange(start as int, i as int))));
                assert(lines(rest) == seq![strip_cr(rest.take(i - start))] + lines(s@.skip(i + 1)));
                assert(views(out@) + lines(s@.skip(i + 1)) == before + lines(rest));
            }
            start = i + 1;
        }
        i += 1;
    }
    if start < n {
        let ghost rest = s@.skip(start as int);
        proof {
            lemma_newline_index_is(rest, n - start);
        }
        let ghost before = views(out@);
        let line = slice_range(s, start, n);
        out.push(line);
        proof {
            assert(line@ == rest);
            assert(views(out@) == before.push(rest));
            assert(lines(rest) == seq![rest]);
        }
    } else {
        assert(s@.skip(start as int).len() == 0);
    }
    out
}

fn strip_cr_chars(v: Vec<char>) -> (r: Vec<char>)
    ensures
        r@ == strip_cr(v@),
{
    let mut v = v;
    if v.len() > 0 && v[v.len() - 1] == '\r' {
        v.pop();
    }
    v
}

/// The pieces of `ls` with `sep` between each two.
pub fn join_chars(ls: &Vec<Vec<char>>, sep: &[char]) -> (r: Vec<char>)
    ensures
        r@ == join(views(ls@), sep@),
{
    let mut out: Vec<char> = Vec::new();
    let n = ls.len();
    for i in 0..n
        invariant
            n == views(ls@).len(),
            out@ == join(views(ls@).take(i as int), sep@),
    {
        let ghost prev = views(ls@).take(i as int);
        let ghost next = views(ls@).take(i + 1);
        assert(next.drop_last() == prev);
        if i > 0 {
            extend(&mut out, sep);
        }
        extend(&mut out, ls[i].as_slice());
        assert(next.last() == ls[i as int]@);
        if i == 0 {
            assert(join(next, sep@) == next[0]);
        }
    }
    assert(views(ls@).take(n as int) == views(ls@));
    out
}

/// The line ending `s` uses.
pub fn newline_chars(s: &[char]) -> (r: Vec<char>)
    ensures
        r@ == newline_of(s@),
{
    let crlf_v = vec!['\r', '\n'];
    assert(crlf_v@ == crlf());
    if contains_chars(s, crlf_v.as_slice()) {
        crlf_v
    } else {
        let v = vec!['\n'];
        assert(v@ == lf());
        v
    }
}

/// A file put back together from `ls`, in the line-ending style of `file_text`.
pub fn reassemble_chars(file_text: &[char], ls: &Vec<Vec<char>>) -> (r: String)
    ensures
        r@ == reassemble(file_text@, views(ls@)),
{
    let nl = newline_chars(file_text);
    let mut out = join_chars(ls, nl.as_slice());
    if file_text.len() > 0 && file_text[file_text.len() - 1] == '\n' {
        extend(&mut out, nl.as_slice());
    }
    string_of(out.as_slice())
}

/// The decimal digit for `d`, below ten.
pub open spec fn digit(d: nat) -> char {
    if d == 0 {
        '0'
    } else if d == 1 {
        '1'
    } else if d == 2 {
        '2'
    } else if d == 3 {
        '3'
    } else if d == 4 {
        '4'
    } else if d == 5 {
        '5'
    } else if d == 6 {
        '6'
    } else if d == 7 {
        '7'
    } else if d == 8 {
        '8'
    } else {
        '9'
    }
}

/// The decimal digits of `n`, most significant first, without leading zeros.
pub open spec fn digits(n: nat) -> Seq<char>
    decreases n,
{
    if n < 10 {
        seq![digit(n)]
    } else {
        digits(n / 10).push(digit(n % 10))
    }
}

/// An integer written in decimal, with a `-` before a negative one, as `Display` writes it.
pub open spec fn decimal(n: int) -> Seq<char> {
    if n < 0 {
        seq!['-'] + digits((-n) as nat)
    } else {
        digits(n as nat)
    }
}

fn digit_char(d: u128) -> (c: char)
    requires
        d < 10,
    ensures
        c == digit(d as nat),
{
    if d == 0 {
        '0'
    } else if d == 1 {
        '1'
    } else if d == 2 {
        '2'
    } else if d == 3 {
        '3'
    } else if d == 4 {
        '4'
    } else if d == 5 {
        '5'
    } else if d == 6 {
        '6'
    } else if d == 7 {
        '7'
    } else if d == 8 {
        '8'
    } else {
        '9'
    }
}

fn digits_chars(n: u128) -> (r: Vec<char>)
    ensures
        r@ == digits(n as nat),
    decreases n,
{
    if n < 10 {
        vec![digit_char(n)]
    } else {
        let mut v = digits_chars(n / 10);
        v.push(digit_char(n % 10));
        v
    }
}

/// A signed machine integer in decimal.
pub fn decimal_isize(n: isize) -> (r: Vec<char>)
    ensures
        r@ == decimal(n as int),
{
    if n < 0 {
        let m: i128 = n as i128;
        let pos: u128 = (0 - m) as u128;
        let mut v = vec!['-'];
        extend(&mut v, digits_chars(pos).as_slice());
        v
    } else {
        digits_chars(n as u128)
    }
}

/// An unsigned machine integer in decimal.
pub fn decimal_usize(n: usize) -> (r: Vec<char>)
    ensures
        r@ == decimal(n as int),
{
    digits_chars(n as u128)
}

/// No `'\n'` in `l`.
pub open spec fn no_newline(l: Seq<char>) -> bool {
    forall|k: int| 0 <= k < l.len() ==> l[k] != '\n'
}

/// Whether `l` ends in `'\r'`.
pub open spec fn ends_cr(l: Seq<char>) -> bool {
    l.len() > 0 && l.last() == '\r'
}

/// Whether `s` ends in a line ending.
pub open spec fn ends_nl(s: Seq<char>) -> bool {
    s.len() > 0 && s.last() == '\n'
}

/// Lines that come back unchanged when joined with `nl` (and a final `nl` when `trailing`) and
/// split again: none holds a `'\n'`, none that a line ending follows ends in `'\r'` unless `nl` is
/// `"\r\n"`, a final line ending follows at least one line, and without one the last line is not
/// empty.
pub open spec fn splits_back(ls: Seq<Seq<char>>, nl: Seq<char>, trailing: bool) -> bool {
    &&& forall|i: int| 0 <= i < ls.len() ==> no_newline(#[trigger] ls[i])
    &&& nl == lf() ==> forall|i: int| 0 <= i < ls.len() && (trailing || i < ls.len() - 1) ==> !ends_cr(#[trigger] ls[i])
    &&& trailing ==> ls.len() > 0
    &&& !trailing ==> (ls.len() == 0 || ls.last().len() > 0)
}

/// `ls` joined with `nl`, with a final `nl` when `trailing`.
pub open spec fn joined_text(ls: Seq<Seq<char>>, nl: Seq<char>, trailing: bool) -> Seq<char> {
    if trailing {
        join(ls, nl) + nl
    } else {
        join(ls, nl)
    }
}

pub proof fn lemma_join_front(ls: Seq<Seq<char>>, sep: Seq<char>)
    requires
        ls.len() >= 2,
    ensures
        join(ls, sep) == ls[0] + sep + join(ls.drop_first(), sep),
    decreases ls.len(),
{
    if ls.len() == 2 {
        assert(ls.drop_last().len() == 1);
        assert(ls.drop_first().len() == 1);
        assert(join(ls.drop_first(), sep) == ls[1]);
        assert(join(ls.drop_last(), sep) == ls[0]);
    } else {
        lemma_join_front(ls.drop_last(), sep);
        assert(ls.drop_last().drop_first() == ls.drop_first().drop_last());
        assert(ls.drop_first().last() == ls.last());
        assert(ls.drop_last()[0] == ls[0]);
    }
}

/// Lines put together and split again come back unchanged.
pub proof fn lemma_lines_of_joined(ls: Seq<Seq<char>>, nl: Seq<char>, trailing: bool)
    requires
        nl == lf() || nl == crlf(),
        splits_back(ls, nl, trailing),
    ensures
        lines(joined_text(ls, nl, trailing)) == ls,
    decreases ls.len(),
{
    let s = joined_text(ls, nl, trailing);
    if ls.len() == 0 {
        assert(s.len() == 0);
    } else if ls.len() == 1 && !trailing {
        assert(s == ls[0]);
        lemma_newline_index_is(s, s.len() as int);
        assert(lines(s) == seq![s]);
    } else {
        let first = ls[0];
        let rest = ls.drop_first();
        let rest_text = if ls.len() == 1 {
            Seq::<char>::empty()
        } else {
            joined_text(rest, nl, trailing)
        };
        if ls.len() == 1 {
            assert(s == first + nl + rest_text);
        } else {
            lemma_join_front(ls, nl);
            assert(s == first + nl + rest_text);
        }
        let i = if nl == crlf() {
            first.len() + 1 as int
        } else {
            first.len() as int
        };
        assert forall|k: int| 0 <= k < i implies s[k] != '\n' by {
            if k < first.len() {
                assert(s[k] == first[k]);
            } else {
                assert(s[k] == nl[0]);
            }
        }
        assert(s[i] == '\n');
        lemma_newline_index_is(s, i);
        assert(s.skip(i + 1) == rest_text);
        if nl == crlf() {
            assert(s.take(i) == first.push('\r'));
            assert(strip_cr(first.push('\r')) == first);
        } else {
            assert(s.take(i) == first);
            assert(!ends_cr(ls[0]));
        }
        if ls.len() > 1 {
            assert forall|j: int| 0 <= j < rest.len() implies no_newline(#[trigger] rest[j]) by {
                assert(rest[j] == ls[j + 1]);
            }
            assert(nl == lf() ==> forall|j: int| 0 <= j < rest.len() && (trailing || j < rest.len() - 1) ==> !ends_cr(#[trigger] rest[j])) by {
                assert forall|j: int| 0 <= j < rest.len() && (trailing || j < rest.len() - 1) && nl == lf() implies !ends_cr(#[trigger] rest[j]) by {
                    assert(rest[j] == ls[j + 1]);
                }
            }
            assert(rest.last() == ls.last());
            lemma_lines_of_joined(rest, nl, trailing);
        } else {
            assert(lines(rest_text) == Seq::<Seq<char>>::empty());
        }
    }
}

/// The last character of joined lines, when the last line is not empty.
pub proof fn lemma_join_last_char(ls: Seq<Seq<char>>, sep: Seq<char>)
    requires
        ls.len() > 0,
    ensures
        join(ls, sep) == join(ls, sep).take(join(ls, sep).len() - ls.last().len()) + ls.last(),
        ls.len() >= 2 ==> join(ls, sep).len() >= sep.len() + ls.last().len() && join(ls, sep).subrange(
            join(ls, sep).len() - ls.last().len() - sep.len(),
            join(ls, sep).len() - ls.last().len(),
        ) == sep,
{
    let j = join(ls, sep);
    if ls.len() == 1 {
        assert(j == ls[0]);
        assert(j.take(0) + ls.last() == j);
    } else {
        let a = join(ls.drop_last(), sep);
        assert(j == a + sep + ls.last());
        assert(j.take(j.len() - ls.last().len()) == a + sep);
        assert(j.subrange(j.len() - ls.last().len() - sep.len(), j.len() - ls.last().len()) == sep);
    }
}

/// No `"\r\n"` anywhere in `s`.
pub open spec fn no_crlf(s: Seq<char>) -> bool {
    forall|i: int| 0 <= i < s.len() - 1 ==> !(#[trigger] s[i] == '\r' && s[i + 1] == '\n')
}

/// Lines without `'\n'`, none but the last ending in `'\r'`, joined by `'\n'`, hold no `"\r\n"`;
/// nor do they end in `'\r'` when the last line does not.
pub proof fn lemma_join_lf_no_crlf(ls: Seq<Seq<char>>)
    requires
        forall|i: int| 0 <= i < ls.len() ==> no_newline(#[trigger] ls[i]),
        forall|i: int| 0 <= i < ls.len() - 1 ==> !ends_cr(#[trigger] ls[i]),
    ensures
        no_crlf(join(ls, lf())),
        join(ls, lf()).len() > 0 && !ends_cr(ls.last()) ==> join(ls, lf()).last() != '\r',
    decreases ls.len(),
{
    if ls.len() >= 2 {
        let a = join(ls.drop_last(), lf());
        let l = ls.last();
        assert forall|i: int| 0 <= i < ls.drop_last().len() implies no_newline(#[trigger] ls.drop_last()[i]) by {
            assert(ls.drop_last()[i] == ls[i]);
        }
        assert forall|i: int| 0 <= i < ls.drop_last().len() - 1 implies !ends_cr(#[trigger] ls.drop_last()[i]) by {
            assert(ls.drop_last()[i] == ls[i]);
        }
        assert(!ends_cr(ls[ls.len() - 2]));
        assert(ls.drop_last().last() == ls[ls.len() - 2]);
        lemma_join_lf_no_crlf(ls.drop_last());
        let j = a + lf() + l;
        assert(join(ls, lf()) == j);
        assert(no_newline(ls[ls.len() - 1]));
        assert forall|i: int| 0 <= i < j.len() - 1 implies !(#[trigger] j[i] == '\r' && j[i + 1] == '\n') by {
            if i < a.len() - 1 {
                assert(j[i] == a[i]);
                assert(j[i + 1] == a[i + 1]);
            } else if i == a.len() - 1 {
                assert(j[i] == a.last());
            } else if i == a.len() {
                assert(j[i] == '\n');
            } else {
                assert(j[i + 1] == l[i + 1 - a.len() - 1]);
            }
        }
        if l.len() == 0 {
            assert(j.last() == '\n');
        } else {
            assert(j.last() == l.last());
        }
    } else if ls.len() == 1 {
        let l = ls[0];
        assert(join(ls, lf()) == l);
        assert(no_newline(ls[0]));
    }
}

/// The line ending and the final line ending of a file put back together from lines that split
/// back: the style is kept whenever the text shows one, and the final line ending is kept.
pub proof fn lemma_reassembled_shape(file_text: Seq<char>, ls: Seq<Seq<char>>)
    requires
        splits_back(ls, newline_of(file_text), ends_nl(file_text)),
    ensures
        reassemble(file_text, ls) == joined_text(ls, newline_of(file_text), ends_nl(file_text)),
        ends_nl(reassemble(file_text, ls)) == ends_nl(file_text),
        (ls.len() >= 2 || ends_nl(file_text)) ==> newline_of(reassemble(file_text, ls))
            == newline_of(file_text),
        lines(reassemble(file_text, ls)) == ls,
{
    let nl = newline_of(file_text);
    let t = ends_nl(file_text);
    let c2 = reassemble(file_text, ls);
    lemma_lines_of_joined(ls, nl, t);
    if t {
        assert(c2.last() == '\n');
    } else if ls.len() > 0 {
        lemma_join_last_char(ls, nl);
        assert(c2.last() == ls.last().last());
        assert(no_newline(ls[ls.len() - 1]));
    }
    if ls.len() >= 2 || t {
        if nl == crlf() {
            if ls.len() >= 2 {
                lemma_join_last_char(ls, nl);
                let p = join(ls, nl).len() - ls.last().len() - 2;
                assert(c2.subrange(p, p + 2) == crlf());
                assert(occurs_at(c2, crlf(), p));
            } else {
                let p = join(ls, nl).len() as int;
                assert(c2.subrange(p, p + 2) == crlf());
                assert(occurs_at(c2, crlf(), p));
            }
        } else {
            lemma_join_lf_no_crlf(ls);
            let j = join(ls, lf());
            assert forall|i: int| !occurs_at(c2, crlf(), i) by {
                if occurs_at(c2, crlf(), i) {
                    assert(c2.subrange(i, i + 2)[0] == '\r');
                    assert(c2.subrange(i, i + 2)[1] == '\n');
                    assert(c2[i] == '\r' && c2[i + 1] == '\n');
                    if t && i + 1 == j.len() {
                        assert(c2[i] == j.last());
                    } else {
                        assert(c2[i] == j[i]);
                        assert(c2[i + 1] == j[i + 1]);
                    }
                }
            }
        }
    }
}

/// Every `'\n'` in `s` comes right after a `'\r'`.
pub open spec fn crlf_throughout(s: Seq<char>) -> bool {
    forall|i: int| 0 <= i < s.len() && #[trigger] s[i] == '\n' ==> i > 0 && s[i - 1] == '\r'
}

/// A text that keeps to one line ending: where `"\r\n"` occurs at all, every `'\n'` is part of
/// one.
pub open spec fn one_line_ending(s: Seq<char>) -> bool {
    newline_of(s) == crlf() ==> crlf_throughout(s)
}

/// The lines of a text that keeps to one line ending, joined again by that ending, with a final
/// one when the text had it, give the text back.
pub proof fn lemma_lines_rejoined(s: Seq<char>, nl: Seq<char>)
    requires
        nl == lf() ==> no_crlf(s),
        nl == crlf() ==> crlf_throughout(s),
        nl == lf() || nl == crlf(),
    ensures
        joined_text(lines(s), nl, ends_nl(s)) == s,
    decreases s.len(),
{
    if s.len() == 0 {
        assert(joined_text(lines(s), nl, ends_nl(s)) =~= s);
    } else {
        lemma_newline_index(s);
        let i = newline_index(s);
        if i >= s.len() {
            assert(s.last() == s[s.len() - 1]);
            assert(lines(s) == seq![s]);
        } else {
            let first = strip_cr(s.take(i));
            let rest = s.skip(i + 1);
            if nl == crlf() {
                assert(s[i] == '\n');
                assert(i > 0 && s[i - 1] == '\r');
                assert(s.take(i).last() == '\r');
                assert(first + nl =~= s.take(i + 1));
            } else {
                if i > 0 {
                    assert(!(s[i - 1] == '\r' && s[i] == '\n'));
                    assert(s.take(i).last() == s[i - 1]);
                }
                assert(first == s.take(i));
                assert(first + nl =~= s.take(i + 1));
            }
            assert(lines(s) == seq![first] + lines(rest));
            if rest.len() == 0 {
                assert(lines(rest) == Seq::<Seq<char>>::empty());
                assert(lines(s) == seq![first]);
                assert(s.last() == s[i]);
                assert(s.take(i + 1) == s);
            } else {
                if nl == crlf() {
                    assert forall|j: int| 0 <= j < rest.len() && #[trigger] rest[j] == '\n' implies j > 0 && rest[j - 1] == '\r' by {
                        assert(rest[j] == s[i + 1 + j]);
                        if j > 0 {
                            assert(rest[j - 1] == s[i + j]);
                        }
                    }
                } else {
                    assert forall|k: int| 0 <= k < rest.len() - 1 implies !(#[trigger] rest[k] == '\r' && rest[k + 1] == '\n') by {
                        assert(rest[k] == s[k + i + 1] && rest[k + 1] == s[k + i + 2]);
                    }
                }
                lemma_lines_rejoined(rest, nl);
                assert(rest.last() == s.last());
                let lr = lines(rest);
                lemma_newline_index(rest);
                assert(lr.len() > 0);
                let ls = lines(s);
                assert(ls.drop_first() == lr);
                lemma_join_front(ls, nl);
                assert(ls[0] == first);
                assert(s == s.take(i + 1) + rest);
            }
        }
    }
}

/// A text that keeps to one line ending comes back whole from being put back together from its
/// own lines.
pub proof fn lemma_reassemble_own_lines(s: Seq<char>)
    requires
        one_line_ending(s),
    ensures
        reassemble(s, lines(s)) == s,
{
    if newline_of(s) == lf() {
        lemma_no_crlf_of(s);
    }
    lemma_lines_rejoined(s, newline_of(s));
}

/// A text in which `"\r\n"` does not occur has no `'\r'` directly before a `'\n'`.
pub proof fn lemma_no_crlf_of(s: Seq<char>)
    requires
        !contains_seq(s, crlf()),
    ensures
        no_crlf(s),
{
    assert forall|i: int| 0 <= i < s.len() - 1 implies !(#[trigger] s[i] == '\r' && s[i + 1] == '\n') by {
        if s[i] == '\r' && s[i + 1] == '\n' {
            assert(s.subrange(i, i + 2) == crlf());
            assert(occurs_at(s, crlf(), i));
        }
    }
}

/// In a text without `"\r\n"` that does not end in `'\r'`, no line ends in `'\r'`.
pub proof fn lemma_lines_without_cr(s: Seq<char>)
    requires
        no_crlf(s),
        !ends_cr(s),
    ensures
        forall|i: int| 0 <= i < lines(s).len() ==> !ends_cr(#[trigger] lines(s)[i]),
    decreases s.len(),
{
    if s.len() > 0 {
        lemma_newline_index(s);
        let i = newline_index(s);
        if i < s.len() {
            let rest = s.skip(i + 1);
            assert forall|k: int| 0 <= k < rest.len() - 1 implies !(#[trigger] rest[k] == '\r' && rest[k + 1] == '\n') by {
                assert(rest[k] == s[k + i + 1] && rest[k + 1] == s[k + i + 2]);
            }
            if rest.len() > 0 {
                assert(rest.last() == s.last());
            }
            lemma_lines_without_cr(rest);
            let first = s.take(i);
            if i > 0 {
                assert(first.last() == s[i - 1]);
                assert(!(s[i - 1] == '\r' && s[i] == '\n'));
            }
            assert(strip_cr(first) == first);
            let ls = lines(s);
            assert forall|j: int| 0 <= j < ls.len() implies !ends_cr(#[trigger] ls[j]) by {
                if j > 0 {
                    assert(ls[j] == lines(rest)[j - 1]);
                }
            }
        }
    }
}

/// In a text without `"\r\n"`, no line but the last ends in `'\r'`.
pub proof fn lemma_lines_cr_only_last(s: Seq<char>)
    requires
        no_crlf(s),
    ensures
        forall|i: int| 0 <= i < lines(s).len() - 1 ==> !ends_cr(#[trigger] lines(s)[i]),
    decreases s.len(),
{
    if s.len() > 0 {
        lemma_newline_index(s);
        let i = newline_index(s);
        if i < s.len() {
            let rest = s.skip(i + 1);
            assert forall|k: int| 0 <= k < rest.len() - 1 implies !(#[trigger] rest[k] == '\r' && rest[k + 1] == '\n') by {
                assert(rest[k] == s[k + i + 1] && rest[k + 1] == s[k + i + 2]);
            }
            lemma_lines_cr_only_last(rest);
            let first = s.take(i);
            if i > 0 {
                assert(first.last() == s[i - 1]);
                assert(!(s[i - 1] == '\r' && s[i] == '\n'));
            }
            assert(strip_cr(first) == first);
            let ls = lines(s);
            assert forall|j: int| 0 <= j < ls.len() - 1 implies !ends_cr(#[trigger] ls[j]) by {
                if j > 0 {
                    assert(ls[j] == lines(rest)[j - 1]);
                }
            }
        }
    }
}

/// A non-empty text that does not end in a line ending has a last line, and it is not empty.
pub proof fn lemma_last_line_not_empty(s: Seq<char>)
    requires
        s.len() > 0,
        !ends_nl(s),
    ensures
        lines(s).len() > 0,
        lines(s).last().len() > 0,
    decreases s.len(),
{
    lemma_newline_index(s);
    let i = newline_index(s);
    if i < s.len() {
        let rest = s.skip(i + 1);
        assert(i + 1 < s.len());
        assert(rest.last() == s.last());
        lemma_last_line_not_empty(rest);
        assert(lines(s).last() == lines(rest).last());
    }
}

/// A line without `'\n'`, and without a final `'\r'` unless the lines are joined with `"\r\n"`,
/// comes back as one of the lines when joined lines are split again.
pub proof fn lemma_joined_keeps_line(ls: Seq<Seq<char>>, nl: Seq<char>, trailing: bool, i: int)
    requires
        nl == lf() || nl == crlf(),
        forall|j: int| 0 <= j < ls.len() ==> no_newline(#[trigger] ls[j]),
        0 <= i < ls.len(),
        nl == lf() ==> !ends_cr(ls[i]),
        ls[i].len() > 0,
    ensures
        lines(joined_text(ls, nl, trailing)).contains(ls[i]),
    decreases ls.len(),
{
    let s = joined_text(ls, nl, trailing);
    if ls.len() == 1 && !trailing {
        assert(s == ls[0]);
        lemma_newline_index_is(s, s.len() as int);
        assert(lines(s) == seq![s]);
        assert(lines(s)[0] == ls[i]);
    } else {
        let first = ls[0];
        let rest = ls.drop_first();
        let rest_text = if ls.len() == 1 {
            Seq::<char>::empty()
        } else {
            joined_text(rest, nl, trailing)
        };
        if ls.len() == 1 {
            assert(s == first + nl + rest_text);
        } else {
            lemma_join_front(ls, nl);
            assert(s == first + nl + rest_text);
        }
        let idx = if nl == crlf() {
            first.len() + 1 as int
        } else {
            first.len() as int
        };
        assert forall|k: int| 0 <= k < idx implies s[k] != '\n' by {
            if k < first.len() {
                assert(s[k] == first[k]);
            } else {
                assert(s[k] == nl[0]);
            }
        }
        assert(s[idx] == '\n');
        lemma_newline_index_is(s, idx);
        assert(s.skip(idx + 1) == rest_text);
        assert(lines(s) == seq![strip_cr(s.take(idx))] + lines(rest_text));
        if i == 0 {
            if nl == crlf() {
                assert(s.take(idx) == first.push('\r'));
                assert(strip_cr(first.push('\r')) == first);
            } else {
                assert(s.take(idx) == first);
            }
            assert(lines(s)[0] == ls[i]);
        } else {
            assert(rest[i - 1] == ls[i]);
            assert forall|j: int| 0 <= j < rest.len() implies no_newline(#[trigger] rest[j]) by {
                assert(rest[j] == ls[j + 1]);
            }
            lemma_joined_keeps_line(rest, nl, trailing, i - 1);
            let q = choose|q: int| 0 <= q < lines(rest_text).len() && lines(rest_text)[q] == ls[i];
            assert(lines(s)[q + 1] == ls[i]);
        }
    }
}

} // verus!
