//! The one `d3dx.ini` setting that decides whether 3DMigoto reacts to hotkeys while its game
//! window is in the background: `check_foreground_window` in `[System]`.
//!
//! The file belongs to the user, so the edit is opt-in, it records the value it replaced on the
//! line itself (see [`marker`]), and it only ever reverts a line carrying that record. Everything
//! else in the file survives, line endings included.

use vstd::prelude::*;
use crate::paths::{join_path, join_path_chars, parent, parent_chars};
use crate::text::{find_from, is_white_space, lemma_trim_end_shape, lemma_trim_start_shape, occurs_at, trim_end, trim_start, string_of, ascii_lower, chars_of, lemma_trim_idempotent, lines, lines_of, reassemble, reassemble_chars, views, eq_chars, ends_with, ends_with_chars, eq_ignore_ascii_case, eq_ignore_ascii_case_chars, extend, find_chars, find_first, slice_range, starts_with, starts_with_chars, trim, trim_chars};

verus! {

/// `check_foreground_window`, the `[System]` key that gates background hotkeys.
pub open spec fn key() -> Seq<char> {
    "check_foreground_window"@
}

/// `; managed by Eous Modify, was `, stamped on every line this app writes, followed by the state
/// it replaced.
pub open spec fn marker() -> Seq<char> {
    "; managed by Eous Modify, was "@
}

/// The recorded state meaning the key was not in the file before the app added it.
pub open spec fn was_absent() -> Seq<char> {
    "absent"@
}

pub open spec fn system_header() -> Seq<char> {
    "[System]"@
}

pub fn key_chars() -> (r: Vec<char>)
    ensures
        r@ == key(),
{
    chars_of("check_foreground_window")
}

pub fn marker_chars() -> (r: Vec<char>)
    ensures
        r@ == marker(),
{
    chars_of("; managed by Eous Modify, was ")
}

pub fn was_absent_chars() -> (r: Vec<char>)
    ensures
        r@ == was_absent(),
{
    chars_of("absent")
}

/// Where `d3dx.ini` is: beside the Mods folder, in its parent, which is where both XXMI and plain
/// 3DMigoto keep it. `None` when the Mods folder path has no parent.
pub open spec fn d3dx_ini_location(mods_folder: Seq<char>) -> Option<Seq<char>> {
    match parent(mods_folder) {
        Some(dir) => Some(join_path(dir, "d3dx.ini"@)),
        None => None,
    }
}

/// `d3dx.ini` sits next to the Mods folder, not inside it.
pub fn d3dx_ini_path(mods_folder: &str) -> (r: Option<String>)
    ensures
        match r {
            Some(p) => d3dx_ini_location(mods_folder@) == Some(p@),
            None => d3dx_ini_location(mods_folder@) is None,
        },
{
    match parent_chars(chars_of(mods_folder).as_slice()) {
        Some(dir) => {
            let joined = join_path_chars(dir.as_slice(), chars_of("d3dx.ini").as_slice());
            Some(string_of(joined.as_slice()))
        },
        None => None,
    }
}

/// A section header: a trimmed line that starts with `[` and ends with `]`.
pub open spec fn is_header(line: Seq<char>) -> bool {
    starts_with(trim(line), seq!['[']) && ends_with(trim(line), seq![']'])
}

/// The `[System]` header, in any ASCII case.
pub open spec fn is_system_header(line: Seq<char>) -> bool {
    eq_ignore_ascii_case(trim(line), system_header())
}

/// An active (not commented out) `check_foreground_window` line, given trimmed: it does not start
/// with `;`, and its first characters are the key in any ASCII case.
pub open spec fn is_key_line(trimmed: Seq<char>) -> bool {
    &&& !starts_with(trimmed, seq![';'])
    &&& trimmed.len() >= key().len()
    &&& eq_ignore_ascii_case(trimmed.take(key().len() as int), key())
}

/// How many bytes of UTF-8 a character takes.
pub open spec fn utf8_width(c: char) -> int {
    let n = c as u32;
    if n < 0x80 {
        1
    } else if n < 0x800 {
        2
    } else if n < 0x10000 {
        3
    } else {
        4
    }
}

/// How many bytes of UTF-8 a text takes.
pub open spec fn utf8_len(s: Seq<char>) -> int
    decreases s.len(),
{
    if s.len() == 0 {
        0
    } else {
        utf8_len(s.drop_last()) + utf8_width(s.last())
    }
}

/// Whether reading the first `key().len()` bytes of a trimmed line can be done without cutting a
/// character in two. The key test compares exactly that many bytes, and cutting inside a
/// character is a panic, so the lines a test reaches must all pass this.
pub open spec fn key_test_defined(trimmed: Seq<char>) -> bool {
    ||| starts_with(trimmed, seq![';'])
    ||| utf8_len(trimmed) < key().len()
    ||| exists|k: int| 0 <= k <= trimmed.len() && utf8_len(#[trigger] trimmed.take(k)) == key().len()
}

/// The state recorded on a line this app wrote: everything after the first marker, trimmed. `None`
/// when the line carries no marker, which means the app did not write it.
pub open spec fn marked_previous(line: Seq<char>) -> Option<Seq<char>> {
    match find_first(line, marker()) {
        Some(at) => Some(trim(line.skip(at + marker().len()))),
        None => None,
    }
}

/// `check_foreground_window = <value>`.
pub open spec fn assignment(value: Seq<char>) -> Seq<char> {
    key() + " = "@ + value
}

/// The line this app writes: the key set to `0`, with the state it replaced recorded after the
/// marker.
pub open spec fn managed_line(previous: Seq<char>) -> Seq<char> {
    key() + " = 0   "@ + marker() + previous
}

/// The index of the header governing line `k`: the last header at or before `k`.
pub open spec fn header_at_or_before(ls: Seq<Seq<char>>, k: int) -> Option<int>
    decreases k + 1,
{
    if k < 0 {
        None
    } else if is_header(ls[k]) {
        Some(k)
    } else {
        header_at_or_before(ls, k - 1)
    }
}

/// Whether line `k` is a line inside a `[System]` section (not the header itself).
pub open spec fn in_system(ls: Seq<Seq<char>>, k: int) -> bool {
    &&& !is_header(ls[k])
    &&& match header_at_or_before(ls, k - 1) {
        Some(h) => is_system_header(ls[h]),
        None => false,
    }
}

/// Whether line `k` is an active key line inside `[System]`.
pub open spec fn is_target(ls: Seq<Seq<char>>, k: int) -> bool {
    in_system(ls, k) && is_key_line(trim(ls[k]))
}

/// The first active key line inside a `[System]` section at or after `k`.
pub open spec fn first_target_from(ls: Seq<Seq<char>>, k: int) -> Option<int>
    decreases ls.len() - k,
{
    if k < 0 || k >= ls.len() {
        None
    } else if is_target(ls, k) {
        Some(k)
    } else {
        first_target_from(ls, k + 1)
    }
}

/// The first active key line inside a `[System]` section: the one line the edits act on.
pub open spec fn first_target(ls: Seq<Seq<char>>) -> Option<int> {
    first_target_from(ls, 0)
}

/// Every line the key test is run on can be tested: each line inside `[System]` up to and
/// including the first key line.
pub open spec fn key_tests_defined(ls: Seq<Seq<char>>) -> bool {
    forall|k: int|
        0 <= k < ls.len() && in_system(ls, k) && (forall|j: int| 0 <= j < k ==> !is_target(ls, j))
            ==> key_test_defined(#[trigger] trim(ls[k]))
}

/// What turning the setting off leaves of a key line: the recorded value put back, the line dropped
/// when the key was absent before, and a line without a marker (the user's own) kept as it is.
pub open spec fn reverted_line(line: Seq<char>) -> Seq<Seq<char>> {
    match marked_previous(line) {
        Some(previous) => if previous == was_absent() {
            seq![]
        } else {
            seq![assignment(previous)]
        },
        None => seq![line],
    }
}

/// The lines with the first key line inside `[System]` reverted, and all others kept.
pub open spec fn reverted_lines(ls: Seq<Seq<char>>) -> Seq<Seq<char>> {
    match first_target(ls) {
        Some(t) => ls.take(t) + reverted_line(ls[t]) + ls.skip(t + 1),
        None => ls,
    }
}

pub proof fn lemma_first_target_skip(ls: Seq<Seq<char>>, i: int, k: int)
    requires
        0 <= i <= k <= ls.len(),
        forall|j: int| i <= j < k ==> !is_target(ls, j),
    ensures
        first_target_from(ls, i) == first_target_from(ls, k),
    decreases k - i,
{
    if i < k {
        lemma_first_target_skip(ls, i + 1, k);
    }
}

pub proof fn lemma_first_target_found(ls: Seq<Seq<char>>, t: int)
    ensures
        first_target(ls) matches Some(x) ==> 0 <= x < ls.len() && is_target(ls, x) && forall|j: int|
            0 <= j < x ==> !is_target(ls, j),
        first_target(ls) is None ==> forall|j: int| 0 <= j < ls.len() ==> !is_target(ls, j),
{
    lemma_first_target_from_facts(ls, 0);
}

proof fn lemma_first_target_from_facts(ls: Seq<Seq<char>>, i: int)
    requires
        0 <= i,
    ensures
        first_target_from(ls, i) matches Some(x) ==> i <= x < ls.len() && is_target(ls, x) && forall|
            j: int,
        | i <= j < x ==> !is_target(ls, j),
        first_target_from(ls, i) is None ==> forall|j: int| i <= j < ls.len() ==> !is_target(ls, j),
    decreases ls.len() - i,
{
    if i < ls.len() && !is_target(ls, i) {
        lemma_first_target_from_facts(ls, i + 1);
    }
}

/// Whether a trimmed line is a section header.
pub fn is_header_chars(trimmed: &[char]) -> (b: bool)
    requires
        trim(trimmed@) == trimmed@,
    ensures
        b == is_header(trimmed@),
{
    let open = vec!['['];
    let close = vec![']'];
    assert(open@ == seq!['[']);
    assert(close@ == seq![']']);
    starts_with_chars(trimmed, open.as_slice()) && ends_with_chars(trimmed, close.as_slice())
}

/// Whether a trimmed line is the `[System]` header.
pub fn is_system_header_chars(trimmed: &[char]) -> (b: bool)
    requires
        trim(trimmed@) == trimmed@,
    ensures
        b == is_system_header(trimmed@),
{
    let sys = chars_of("[System]");
    eq_ignore_ascii_case_chars(trimmed, sys.as_slice())
}

/// Whether a trimmed line is an active `check_foreground_window` line.
pub fn is_key_line_chars(trimmed: &[char]) -> (b: bool)
    ensures
        b == is_key_line(trimmed@),
{
    let semi = vec![';'];
    assert(semi@ == seq![';']);
    let key = key_chars();
    if starts_with_chars(trimmed, semi.as_slice()) || trimmed.len() < key.len() {
        return false;
    }
    let head = slice_range(trimmed, 0, key.len());
    assert(head@ == trimmed@.take(key@.len() as int));
    eq_ignore_ascii_case_chars(head.as_slice(), key.as_slice())
}

/// The state recorded on a line this app wrote, or `None` if the app did not write it.
pub fn marked_previous_chars(line: &[char]) -> (r: Option<Vec<char>>)
    ensures
        match r {
            Some(v) => marked_previous(line@) == Some(v@),
            None => marked_previous(line@) is None,
        },
{
    let m = marker_chars();
    let len = line.len();
    match find_chars(line, m.as_slice()) {
        Some(at) => {
            assert(at + m@.len() <= line@.len());
            let rest = slice_range(line, at + m.len(), len);
            assert(rest@ == line@.skip(at + m@.len()));
            Some(trim_chars(rest.as_slice()))
        },
        None => None,
    }
}

/// `check_foreground_window = <value>`.
pub fn assignment_chars(value: &[char]) -> (r: Vec<char>)
    ensures
        r@ == assignment(value@),
{
    let mut out = key_chars();
    let eq = chars_of(" = ");
    extend(&mut out, eq.as_slice());
    extend(&mut out, value);
    out
}

/// The line this app writes, recording `previous`.
pub fn managed_line_chars(previous: &[char]) -> (r: Vec<char>)
    ensures
        r@ == managed_line(previous@),
{
    let mut out = key_chars();
    let zero = chars_of(" = 0   ");
    extend(&mut out, zero.as_slice());
    let m = marker_chars();
    extend(&mut out, m.as_slice());
    extend(&mut out, previous);
    out
}

/// The value a key line assigns: what follows the first `=`, cut at the first `;`, trimmed.
/// Empty when the line has no `=`.
pub open spec fn current_value(line: Seq<char>) -> Seq<char> {
    let after_eq = match find_first(line, seq!['=']) {
        Some(i) => line.skip(i + 1),
        None => Seq::<char>::empty(),
    };
    let before_comment = match find_first(after_eq, seq![';']) {
        Some(j) => after_eq.take(j),
        None => after_eq,
    };
    trim(before_comment)
}

/// What turning the setting on makes of the key line: a line already ours keeps the state it
/// recorded, a user's own `0` is left as it is, and any other value is replaced by `0` with that
/// value recorded.
pub open spec fn enabled_line(line: Seq<char>) -> Seq<char> {
    match marked_previous(line) {
        Some(previous) => managed_line(previous),
        None => if current_value(trim(line)) == "0"@ {
            line
        } else {
            managed_line(current_value(trim(line)))
        },
    }
}

/// The first `[System]` header at or after `k`.
pub open spec fn first_system_from(ls: Seq<Seq<char>>, k: int) -> Option<int>
    decreases ls.len() - k,
{
    if k < 0 || k >= ls.len() {
        None
    } else if is_system_header(ls[k]) {
        Some(k)
    } else {
        first_system_from(ls, k + 1)
    }
}

/// The first header at or after `k`, or the number of lines when there is none.
pub open spec fn next_header_from(ls: Seq<Seq<char>>, k: int) -> int
    decreases ls.len() - k,
{
    if k < 0 || k >= ls.len() {
        ls.len() as int
    } else if is_header(ls[k]) {
        k
    } else {
        next_header_from(ls, k + 1)
    }
}

/// Where the first `[System]` section ends: at the next header, or at the end of the file.
pub open spec fn first_system_end(ls: Seq<Seq<char>>) -> int {
    match first_system_from(ls, 0) {
        Some(s) => next_header_from(ls, s + 1),
        None => ls.len() as int,
    }
}

/// The lines with background hotkeys turned on. Only the first `[System]` section is looked at:
/// its first key line is rewritten, or, when it has none, the app's line is added at its end. A
/// file without `[System]` gets one, after a blank line, at the end.
pub open spec fn enabled_lines(ls: Seq<Seq<char>>) -> Seq<Seq<char>> {
    let added = managed_line(was_absent());
    match first_system_from(ls, 0) {
        None => ls + seq![Seq::<char>::empty(), system_header(), added],
        Some(s) => {
            let e = first_system_end(ls);
            match first_target(ls) {
                Some(t) => if t < e {
                    ls.update(t, enabled_line(ls[t]))
                } else {
                    ls.take(e) + seq![added] + ls.skip(e)
                },
                None => ls.take(e) + seq![added] + ls.skip(e),
            }
        },
    }
}

/// Every line the key test is run on when turning the setting on can be tested: each line of the
/// first `[System]` section up to and including its first key line.
pub open spec fn enable_key_tests_defined(ls: Seq<Seq<char>>) -> bool {
    forall|k: int|
        0 <= k < first_system_end(ls) && in_system(ls, k) && (forall|j: int|
            0 <= j < k ==> !is_target(ls, j)) ==> key_test_defined(#[trigger] trim(ls[k]))
}

/// What [`rewrite`] returns.
pub open spec fn rewritten(contents: Seq<char>, enable: bool) -> Seq<char> {
    let ls = lines(contents);
    if enable {
        reassemble(contents, enabled_lines(ls))
    } else {
        reassemble(contents, reverted_lines(ls))
    }
}

/// The `[System]` header is a header.
pub proof fn lemma_system_header_is_header(line: Seq<char>)
    requires
        is_system_header(line),
    ensures
        is_header(line),
{
    reveal_strlit("[System]");
    let t = trim(line);
    assert(ascii_lower(t[0]) == ascii_lower('['));
    assert(ascii_lower(t[7]) == ascii_lower(']'));
    assert(t.take(1) == seq![t[0]]);
    assert(t.skip(7) == seq![t[7]]);
}

pub proof fn lemma_first_system_facts(ls: Seq<Seq<char>>, i: int)
    requires
        0 <= i,
    ensures
        first_system_from(ls, i) matches Some(x) ==> i <= x < ls.len() && is_system_header(ls[x])
            && forall|j: int| i <= j < x ==> !is_system_header(ls[j]),
        first_system_from(ls, i) is None ==> forall|j: int|
            i <= j < ls.len() ==> !is_system_header(ls[j]),
    decreases ls.len() - i,
{
    if i < ls.len() && !is_system_header(ls[i]) {
        lemma_first_system_facts(ls, i + 1);
    }
}

pub proof fn lemma_next_header_facts(ls: Seq<Seq<char>>, i: int)
    requires
        0 <= i,
    ensures
        i <= next_header_from(ls, i) <= ls.len() || (i > ls.len() && next_header_from(ls, i)
            == ls.len()),
        forall|j: int| i <= j < next_header_from(ls, i) ==> !is_header(ls[j]),
        next_header_from(ls, i) < ls.len() ==> is_header(ls[next_header_from(ls, i)]),
    decreases ls.len() - i,
{
    if i < ls.len() && !is_header(ls[i]) {
        lemma_next_header_facts(ls, i + 1);
    }
}

/// The line of the first `[System]` section's last header governs every line up to its end.
pub proof fn lemma_governed_by_first_system(ls: Seq<Seq<char>>, s: int, k: int)
    requires
        0 <= s < k <= next_header_from(ls, s + 1),
        k <= ls.len(),
        is_header(ls[s]),
        forall|j: int| s < j < next_header_from(ls, s + 1) ==> !is_header(ls[j]),
    ensures
        header_at_or_before(ls, k - 1) == Some(s),
    decreases k - s,
{
    if k - 1 > s {
        lemma_governed_by_first_system(ls, s, k - 1);
    }
}

/// The value a key line assigns.
pub fn current_value_chars(line: &[char]) -> (r: Vec<char>)
    ensures
        r@ == current_value(line@),
{
    let eq = vec!['='];
    let semi = vec![';'];
    assert(eq@ == seq!['=']);
    assert(semi@ == seq![';']);
    let len = line.len();
    let after_eq = match find_chars(line, eq.as_slice()) {
        Some(i) => {
            assert(i + 1 <= len);
            slice_range(line, i + 1, len)
        },
        None => Vec::new(),
    };
    proof {
        if let Some(i) = find_first(line@, seq!['=']) {
            assert(after_eq@ == line@.skip(i + 1));
        } else {
            assert(after_eq@ == Seq::<char>::empty());
        }
    }
    let before_comment = match find_chars(after_eq.as_slice(), semi.as_slice()) {
        Some(j) => slice_range(after_eq.as_slice(), 0, j),
        None => after_eq,
    };
    trim_chars(before_comment.as_slice())
}

/// What turning the setting on makes of the key line.
pub fn enabled_line_chars(line: &[char]) -> (r: Vec<char>)
    ensures
        r@ == enabled_line(line@),
{
    match marked_previous_chars(line) {
        Some(previous) => managed_line_chars(previous.as_slice()),
        None => {
            let t = trim_chars(line);
            let value = current_value_chars(t.as_slice());
            let zero = chars_of("0");
            if eq_chars(value.as_slice(), zero.as_slice()) {
                slice_range(line, 0, line.len())
            } else {
                managed_line_chars(value.as_slice())
            }
        },
    }
}

/// Turns the setting off: the first key line inside `[System]` goes back to what it recorded when
/// the app wrote it, and the rest is returned unchanged.
fn revert_first_key_line(contents: &str) -> (r: String)
    requires
        key_tests_defined(lines(contents@)),
    ensures
        r@ == reassemble(contents@, reverted_lines(lines(contents@))),
{
    let cs = chars_of(contents);
    let ls = lines_of(cs.as_slice());
    let ghost l = lines(contents@);
    let n = ls.len();
    let mut out: Vec<Vec<char>> = Vec::new();
    let mut in_sys = false;
    let mut handled = false;
    proof {
        lemma_first_target_found(l, 0);
    }
    for k in 0..n
        invariant
            n == l.len(),
            views(ls@) == l,
            in_sys == (match header_at_or_before(l, k - 1) {
                Some(h) => is_system_header(l[h]),
                None => false,
            }),
            handled == (exists|j: int| 0 <= j < k && is_target(l, j)),
            first_target(l) matches Some(x) ==> 0 <= x < l.len() && is_target(l, x) && forall|j: int|
                0 <= j < x ==> !is_target(l, j),
            first_target(l) is None ==> forall|j: int| 0 <= j < l.len() ==> !is_target(l, j),
            !handled ==> views(out@) == l.take(k as int),
            handled ==> (first_target(l) matches Some(t) && t < k && views(out@) == l.take(t) + reverted_line(l[t]) + l.subrange(t + 1, k as int)),
    {
        let ghost before = views(out@);
        let line = &ls[k];
        assert(line@ == l[k as int]);
        let t = trim_chars(line.as_slice());
        proof {
            lemma_trim_idempotent(line@);
        }
        if is_header_chars(t.as_slice()) {
            in_sys = is_system_header_chars(t.as_slice());
            out.push(line.clone());
            proof {
                assert(views(out@) == before.push(l[k as int]));
                assert(!is_target(l, k as int));
                if handled {
                    let tt = first_target(l)->0;
                    assert(l.subrange(tt + 1, k + 1) == l.subrange(tt + 1, k as int).push(l[k as int]));
                } else {
                    assert(l.take(k + 1) == l.take(k as int).push(l[k as int]));
                }
            }
        } else if in_sys && !handled && is_key_line_chars(t.as_slice()) {
            proof {
                assert(is_target(l, k as int));
                assert(first_target(l) == Some(k as int));
            }
            handled = true;
            let mp = marked_previous_chars(line.as_slice());
            match mp {
                Some(previous) => {
                    let absent = was_absent_chars();
                    if eq_chars(previous.as_slice(), absent.as_slice()) {
                    } else {
                        out.push(assignment_chars(previous.as_slice()));
                    }
                },
                None => {
                    out.push(line.clone());
                },
            }
            proof {
                assert(l.subrange(k + 1, k + 1) == Seq::<Seq<char>>::empty());
                assert(views(out@) == l.take(k as int) + reverted_line(l[k as int]) + l.subrange(k + 1, k + 1));
            }
        } else {
            proof {
                if !handled && in_sys {
                    assert(!is_target(l, k as int));
                }
                if !in_sys {
                    assert(!is_target(l, k as int));
                }
            }
            out.push(line.clone());
            proof {
                assert(views(out@) == before.push(l[k as int]));
                if handled {
                    let tt = first_target(l)->0;
                    assert(l.subrange(tt + 1, k + 1) == l.subrange(tt + 1, k as int).push(l[k as int]));
                } else {
                    assert(l.take(k + 1) == l.take(k as int).push(l[k as int]));
                }
            }
        }
    }
    proof {
        if handled {
            let tt = first_target(l)->0;
            assert(l.subrange(tt + 1, n as int) == l.skip(tt + 1));
        } else {
            assert(l.take(n as int) == l);
        }
    }
    reassemble_chars(cs.as_slice(), &out)
}

/// The lines with background hotkeys turned on, as [`enabled_lines`] gives them.
#[verifier::spinoff_prover]
#[verifier::rlimit(100)]
fn enabled_lines_chars(ls: &Vec<Vec<char>>) -> (out: Vec<Vec<char>>)
    requires
        enable_key_tests_defined(views(ls@)),
    ensures
        views(out@) == enabled_lines(views(ls@)),
{
    let ghost l = views(ls@);
    let ghost fs = first_system_from(l, 0);
    let ghost e = first_system_end(l);
    let ghost ft = first_target(l);
    let ghost added = managed_line(was_absent());
    proof {
        lemma_first_target_found(l, 0);
        lemma_first_system_facts(l, 0);
        if let Some(s) = fs {
            lemma_next_header_facts(l, s + 1);
            lemma_system_header_is_header(l[s]);
        }
    }
    let n = ls.len();
    let mut out: Vec<Vec<char>> = Vec::new();
    let mut in_sys = false;
    let mut saw_sys = false;
    let mut handled = false;
    for k in 0..n
        invariant
            n == l.len(),
            views(ls@) == l,
            fs == first_system_from(l, 0),
            e == first_system_end(l),
            ft == first_target(l),
            added == managed_line(was_absent()),
            fs matches Some(s) ==> 0 <= s < l.len() && is_system_header(l[s]) && is_header(l[s])
                && (forall|j: int| 0 <= j < s ==> !is_system_header(l[j])) && s < e <= l.len()
                && (forall|j: int| s < j < e ==> !is_header(l[j])) && (e < l.len() ==> is_header(
                l[e])),
            fs is None ==> forall|j: int| 0 <= j < l.len() ==> !is_system_header(l[j]),
            ft matches Some(x) ==> 0 <= x < l.len() && is_target(l, x) && forall|j: int|
                0 <= j < x ==> !is_target(l, j),
            ft is None ==> forall|j: int| 0 <= j < l.len() ==> !is_target(l, j),
            in_sys == (match header_at_or_before(l, k - 1) {
                Some(h) => is_system_header(l[h]),
                None => false,
            }),
            saw_sys == (fs matches Some(s) && s < k),
            in_sys ==> saw_sys,
            !handled ==> forall|j: int| 0 <= j < k ==> !is_target(l, j),
            saw_sys && !handled ==> k <= e,
            handled ==> saw_sys,
            handled ==> ((ft matches Some(t) && t < e && t < k && views(out@) == l.take(t) + seq![
                enabled_line(l[t])] + l.subrange(t + 1, k as int)) || (!(ft matches Some(t)
                && t < e) && e < k && views(out@) == l.take(e) + seq![added] + l.subrange(
                e,
                k as int,
            ))),
            !handled ==> views(out@) == l.take(k as int),
    {
        let ghost before = views(out@);
        let line = &ls[k];
        assert(line@ == l[k as int]);
        let t = trim_chars(line.as_slice());
        proof {
            lemma_trim_idempotent(line@);
            if let Some(s) = fs {
                if saw_sys && !handled {
                    lemma_governed_by_first_system(l, s, k as int);
                }
            }
        }
        if is_header_chars(t.as_slice()) {
            if in_sys && !handled {
                proof {
                    assert(saw_sys);
                    let s = fs->0;
                    assert(k as int == e);
                    assert(!(ft matches Some(tt) && tt < e));
                }
                out.push(managed_line_chars(was_absent_chars().as_slice()));
                handled = true;
                proof {
                    assert(views(out@) == l.take(e) + seq![added]);
                    assert(l.subrange(e, e) == Seq::<Seq<char>>::empty());
                }
            }
            let ghost mid = views(out@);
            let sys = is_system_header_chars(t.as_slice());
            in_sys = sys;
            saw_sys = saw_sys || sys;
            out.push(line.clone());
            proof {
                assert(views(out@) == mid.push(l[k as int]));
                assert(!is_target(l, k as int));
                if handled {
                    if ft matches Some(tt) && tt < e {
                        let tt = ft->0;
                        assert(l.subrange(tt + 1, k + 1) == l.subrange(tt + 1, k as int).push(
                            l[k as int],
                        ));
                    } else {
                        assert(l.subrange(e, k + 1) == l.subrange(e, k as int).push(l[k as int]));
                    }
                } else {
                    assert(l.take(k + 1) == l.take(k as int).push(l[k as int]));
                    if saw_sys {
                        assert(fs == Some(k as int));
                    }
                }
            }
        } else if in_sys && !handled && is_key_line_chars(t.as_slice()) {
            proof {
                assert(is_target(l, k as int));
                assert(ft == Some(k as int));
                assert(saw_sys);
                assert(k < e);
            }
            handled = true;
            out.push(enabled_line_chars(line.as_slice()));
            proof {
                assert(l.subrange(k + 1, k + 1) == Seq::<Seq<char>>::empty());
                assert(views(out@) == l.take(k as int) + seq![enabled_line(l[k as int])] + l.subrange(
                    k + 1,
                    k + 1,
                ));
            }
        } else {
            proof {
                if !handled {
                    assert(!is_target(l, k as int));
                }
            }
            out.push(line.clone());
            proof {
                assert(views(out@) == before.push(l[k as int]));
                if handled {
                    if ft matches Some(tt) && tt < e {
                        let tt = ft->0;
                        assert(l.subrange(tt + 1, k + 1) == l.subrange(tt + 1, k as int).push(
                            l[k as int],
                        ));
                    } else {
                        assert(l.subrange(e, k + 1) == l.subrange(e, k as int).push(l[k as int]));
                    }
                } else {
                    assert(l.take(k + 1) == l.take(k as int).push(l[k as int]));
                }
            }
        }
    }
    if !handled {
        if in_sys {
            proof {
                assert(saw_sys);
                assert(e == n);
            }
            out.push(managed_line_chars(was_absent_chars().as_slice()));
            proof {
                assert(l.take(n as int) == l);
                assert(l.skip(n as int) == Seq::<Seq<char>>::empty());
                assert(!(ft matches Some(tt) && tt < e));
                assert(views(out@) == enabled_lines(l));
            }
        } else {
            proof {
                if saw_sys {
                    lemma_governed_by_first_system(l, fs->0, n as int);
                    assert(false);
                }
                assert(fs is None);
            }
            out.push(Vec::new());
            out.push(chars_of("[System]"));
            out.push(managed_line_chars(was_absent_chars().as_slice()));
            proof {
                assert(l.take(n as int) == l);
                assert(views(out@) == enabled_lines(l));
            }
        }
    } else {
        proof {
            if ft matches Some(tt) && tt < e {
                let tt = ft->0;
                assert(l.subrange(tt + 1, n as int) == l.skip(tt + 1));
                assert(l.take(tt) + seq![enabled_line(l[tt])] + l.skip(tt + 1) == l.update(
                    tt,
                    enabled_line(l[tt]),
                ));
                assert(views(out@) == enabled_lines(l));
            } else {
                assert(l.subrange(e, n as int) == l.skip(e));
                assert(views(out@) == enabled_lines(l));
            }
        }
    }
    out
}

/// Rewrites `d3dx.ini` contents to turn background hotkeys on (`enable`) or back off.
///
/// Turning on rewrites the first key line of the first `[System]` section to `0`, recording the
/// value it replaced, or adds the app's line when there is none. Turning off reverts the first key
/// line inside `[System]` when it carries the app's record, and leaves a user's own line alone. All
/// other lines, the line ending style and the final line ending are kept.
pub fn rewrite(contents: &str, enable: bool) -> (r: String)
    requires
        enable ==> enable_key_tests_defined(lines(contents@)),
        !enable ==> key_tests_defined(lines(contents@)),
    ensures
        r@ == rewritten(contents@, enable),
{
    if !enable {
        return revert_first_key_line(contents);
    }
    let cs = chars_of(contents);
    let ls = lines_of(cs.as_slice());
    let out = enabled_lines_chars(&ls);
    reassemble_chars(cs.as_slice(), &out)
}

/// The header governing line `k` depends only on the lines up to `k`.
pub proof fn lemma_header_prefix(a: Seq<Seq<char>>, b: Seq<Seq<char>>, k: int)
    requires
        k < a.len(),
        k < b.len(),
        forall|j: int| 0 <= j <= k ==> a[j] == b[j],
    ensures
        header_at_or_before(a, k) == header_at_or_before(b, k),
    decreases k + 1,
{
    if k >= 0 && !is_header(a[k]) {
        lemma_header_prefix(a, b, k - 1);
    }
}

/// Two files with the same headers in the same places, and key lines in the same places, have the
/// same first `[System]` section and the same first key line in it.
pub proof fn lemma_same_shape(a: Seq<Seq<char>>, b: Seq<Seq<char>>)
    requires
        a.len() == b.len(),
        forall|k: int| 0 <= k < a.len() ==> is_header(#[trigger] a[k]) == is_header(b[k]),
        forall|k: int| 0 <= k < a.len() && is_header(#[trigger] a[k]) ==> a[k] == b[k],
        forall|k: int| 0 <= k < a.len() ==> is_key_line(trim(#[trigger] a[k])) == is_key_line(trim(b[k])),
    ensures
        first_target(a) == first_target(b),
        first_system_from(a, 0) == first_system_from(b, 0),
        first_system_end(a) == first_system_end(b),
{
    assert forall|k: int| 0 <= k < a.len() implies #[trigger] is_target(a, k) == is_target(b, k) by {
        lemma_same_headers_before(a, b, k - 1);
    }
    lemma_same_targets_from(a, b, 0);
    assert forall|k: int| 0 <= k < a.len() implies #[trigger] is_system_header(a[k]) == is_system_header(b[k]) by {
        if is_system_header(a[k]) {
            lemma_system_header_is_header(a[k]);
        }
        if is_system_header(b[k]) {
            lemma_system_header_is_header(b[k]);
        }
    }
    lemma_same_systems_from(a, b, 0);
    lemma_first_system_facts(a, 0);
    if let Some(s) = first_system_from(a, 0) {
        lemma_same_next_header_from(a, b, s + 1);
    }
}

proof fn lemma_same_headers_before(a: Seq<Seq<char>>, b: Seq<Seq<char>>, k: int)
    requires
        a.len() == b.len(),
        k < a.len(),
        forall|j: int| 0 <= j < a.len() ==> is_header(#[trigger] a[j]) == is_header(b[j]),
        forall|j: int| 0 <= j < a.len() && is_header(#[trigger] a[j]) ==> a[j] == b[j],
    ensures
        header_at_or_before(a, k) == header_at_or_before(b, k),
        header_at_or_before(a, k) matches Some(h) ==> 0 <= h <= k && a[h] == b[h],
    decreases k + 1,
{
    if k >= 0 && !is_header(a[k]) {
        lemma_same_headers_before(a, b, k - 1);
    }
}

proof fn lemma_same_targets_from(a: Seq<Seq<char>>, b: Seq<Seq<char>>, i: int)
    requires
        a.len() == b.len(),
        0 <= i,
        forall|k: int| 0 <= k < a.len() ==> #[trigger] is_target(a, k) == is_target(b, k),
    ensures
        first_target_from(a, i) == first_target_from(b, i),
    decreases a.len() - i,
{
    if i < a.len() && !is_target(a, i) {
        lemma_same_targets_from(a, b, i + 1);
    }
}

proof fn lemma_same_systems_from(a: Seq<Seq<char>>, b: Seq<Seq<char>>, i: int)
    requires
        a.len() == b.len(),
        0 <= i,
        forall|k: int| 0 <= k < a.len() ==> #[trigger] is_system_header(a[k]) == is_system_header(b[k]),
    ensures
        first_system_from(a, i) == first_system_from(b, i),
    decreases a.len() - i,
{
    if i < a.len() && !is_system_header(a[i]) {
        lemma_same_systems_from(a, b, i + 1);
    }
}

proof fn lemma_same_next_header_from(a: Seq<Seq<char>>, b: Seq<Seq<char>>, i: int)
    requires
        a.len() == b.len(),
        0 <= i,
        forall|k: int| 0 <= k < a.len() ==> is_header(#[trigger] a[k]) == is_header(b[k]),
    ensures
        next_header_from(a, i) == next_header_from(b, i),
    decreases a.len() - i,
{
    if i < a.len() && !is_header(a[i]) {
        lemma_same_next_header_from(a, b, i + 1);
    }
}

/// Trimming the end keeps every character up to the last one that is not white space.
pub proof fn lemma_trim_end_keeps(s: Seq<char>, j: int)
    requires
        0 <= j < s.len(),
        !is_white_space(s[j]),
    ensures
        trim_end(s).len() > j,
    decreases s.len(),
{
    if is_white_space(s.last()) {
        assert(j < s.len() - 1);
        assert(s.drop_last()[j] == s[j]);
        lemma_trim_end_keeps(s.drop_last(), j);
    }
}

pub proof fn lemma_find_from_skip(s: Seq<char>, p: Seq<char>, i: int, k: int)
    requires
        0 <= i <= k <= s.len(),
        forall|j: int| i <= j < k ==> !occurs_at(s, p, j),
    ensures
        find_from(s, p, i) == find_from(s, p, k),
    decreases k - i,
{
    if i < k {
        lemma_find_from_skip(s, p, i + 1, k);
    }
}

/// The line the app writes is an active key line, not a header, and reads back the state it
/// recorded.
pub proof fn lemma_managed_line_facts(previous: Seq<char>)
    ensures
        !is_header(managed_line(previous)),
        !is_system_header(managed_line(previous)),
        is_key_line(trim(managed_line(previous))),
        marked_previous(managed_line(previous)) == Some(trim(previous)),
{
    reveal_strlit("check_foreground_window");
    reveal_strlit(" = 0   ");
    reveal_strlit("; managed by Eous Modify, was ");
    let m = managed_line(previous);
    let head = key() + " = 0   "@;
    assert(key().len() == 23);
    assert(marker().len() == 30);
    assert(head.len() == 30);
    assert(m == head + marker() + previous);
    assert(m[0] == 'c');
    assert(m[26] == '0');
    assert(trim_start(m) == m);
    lemma_trim_end_shape(m);
    lemma_trim_end_keeps(m, 26);
    let t = trim(m);
    assert(t == trim_end(m));
    assert(t == m.take(t.len() as int));
    assert(t[0] == 'c');
    assert(t.take(1)[0] == 'c');
    assert(t.take(1) != seq!['[']) by {
        assert(seq!['['][0] == '[');
    }
    assert(t.take(1) != seq![';']) by {
        assert(seq![';'][0] == ';');
    }
    assert(t.take(23) == key());
    assert(eq_ignore_ascii_case(t.take(23), key()));
    if is_system_header(m) {
        lemma_system_header_is_header(m);
    }
    assert forall|j: int| 0 <= j < 30 implies !occurs_at(m, marker(), j) by {
        if occurs_at(m, marker(), j) {
            assert(m.subrange(j, j + 30)[0] == ';');
            assert(m[j] == head[j]);
        }
    }
    lemma_find_from_skip(m, marker(), 0, 30);
    assert(m.subrange(30, 60) == marker());
    assert(occurs_at(m, marker(), 30));
    assert(m.skip(60) == previous);
}

/// Enabling an already enabled key line changes nothing: a line of the app's keeps its record, and
/// a user's own zero stays.
pub proof fn lemma_enabled_line_fixed(line: Seq<char>)
    ensures
        enabled_line(enabled_line(line)) == enabled_line(line),
{
    match marked_previous(line) {
        Some(previous) => {
            lemma_managed_line_facts(previous);
            lemma_trim_idempotent(line.skip(find_first(line, marker())->0 + marker().len()));
        },
        None => {
            let v = current_value(trim(line));
            if v != "0"@ {
                lemma_managed_line_facts(v);
                let after_eq = match find_first(trim(line), seq!['=']) {
                    Some(i) => trim(line).skip(i + 1),
                    None => Seq::<char>::empty(),
                };
                let before_comment = match find_first(after_eq, seq![';']) {
                    Some(j) => after_eq.take(j),
                    None => after_eq,
                };
                lemma_trim_idempotent(before_comment);
            }
        },
    }
}

proof fn lemma_utf8_len_step(t: Seq<char>, k: int)
    requires
        0 <= k < t.len(),
    ensures
        utf8_len(t.take(k + 1)) == utf8_len(t.take(k)) + utf8_width(t[k]),
{
    assert(t.take(k + 1).drop_last() == t.take(k));
}

proof fn lemma_utf8_len_grows(t: Seq<char>, j: int, k: int)
    requires
        0 <= j <= k <= t.len(),
    ensures
        utf8_len(t.take(j)) + (k - j) <= utf8_len(t.take(k)),
    decreases k - j,
{
    if j < k {
        lemma_utf8_len_step(t, k - 1);
        lemma_utf8_len_grows(t, j, k - 1);
    }
}

fn utf8_width_exec(c: char) -> (w: u64)
    ensures
        w == utf8_width(c),
        1 <= w <= 4,
{
    let n = c as u32;
    if n < 0x80 {
        1
    } else if n < 0x800 {
        2
    } else if n < 0x10000 {
        3
    } else {
        4
    }
}

/// Whether the key test can read the first bytes of this trimmed line without cutting a
/// character in two.
pub fn key_test_defined_chars(trimmed: &[char]) -> (b: bool)
    ensures
        b == key_test_defined(trimmed@),
{
    proof {
        reveal_strlit("check_foreground_window");
    }
    let semi = vec![';'];
    assert(semi@ == seq![';']);
    if starts_with_chars(trimmed, semi.as_slice()) {
        return true;
    }
    let klen = key_chars().len() as u64;
    let ghost t = trimmed@;
    let n = trimmed.len();
    let mut i: usize = 0;
    let mut w: u64 = 0;
    assert(t.take(0) == Seq::<char>::empty());
    while i < n && w < klen
        invariant
            klen == key().len(),
            klen == 23,
            i <= n == t.len(),
            t == trimmed@,
            w == utf8_len(t.take(i as int)),
            i > 0 ==> utf8_len(t.take(i - 1)) < klen,
            w <= klen + 4,
        decreases n - i,
    {
        proof {
            lemma_utf8_len_step(t, i as int);
        }
        w = w + utf8_width_exec(trimmed[i]);
        i += 1;
    }
    if w == klen {
        assert(0 <= i <= t.len() && utf8_len(t.take(i as int)) == key().len());
        return true;
    }
    if i == n && w < klen {
        assert(t.take(n as int) == t);
        return true;
    }
    proof {
        assert(w > klen);
        assert forall|k: int| 0 <= k <= t.len() implies utf8_len(#[trigger] t.take(k)) != key().len() by {
            if k <= i - 1 {
                lemma_utf8_len_grows(t, k, i - 1);
            } else {
                lemma_utf8_len_grows(t, i as int, k);
            }
        }
        if utf8_len(t) < key().len() {
            assert(t.take(t.len() as int) == t);
            lemma_utf8_len_grows(t, i as int, t.len() as int);
        }
    }
    false
}

/// Whether every key test run on this text can be made without cutting a character in two: in
/// every `[System]` section for turning the setting off, in the first one for turning it on. This
/// is what [`rewrite`] and the revert ask of their input.
pub fn key_tests_hold(contents: &str, first_section_only: bool) -> (b: bool)
    ensures
        first_section_only ==> b == enable_key_tests_defined(lines(contents@)),
        !first_section_only ==> b == key_tests_defined(lines(contents@)),
{
    let cs = chars_of(contents);
    let ls = lines_of(cs.as_slice());
    let ghost l = lines(contents@);
    let n = ls.len();
    let ghost fs = first_system_from(l, 0);
    let ghost e = first_system_end(l);
    proof {
        lemma_first_system_facts(l, 0);
        if let Some(s) = fs {
            lemma_next_header_facts(l, s + 1);
            lemma_system_header_is_header(l[s]);
        }
    }
    let mut in_sys = false;
    let mut saw_sys = false;
    let mut left_first = false;
    let mut handled = false;
    for k in 0..n
        invariant
            n == l.len(),
            l == lines(contents@),
            views(ls@) == l,
            fs == first_system_from(l, 0),
            e == first_system_end(l),
            fs matches Some(s) ==> 0 <= s < l.len() && is_system_header(l[s]) && is_header(l[s])
                && (forall|j: int| 0 <= j < s ==> !is_system_header(l[j])) && s < e <= l.len()
                && (forall|j: int| s < j < e ==> !is_header(l[j])) && (e < l.len() ==> is_header(
                l[e])),
            fs is None ==> e == l.len() && forall|j: int| 0 <= j < l.len() ==> !is_system_header(l[j]),
            in_sys == (match header_at_or_before(l, k - 1) {
                Some(h) => is_system_header(l[h]),
                None => false,
            }),
            saw_sys == (fs matches Some(s) && s < k),
            in_sys ==> saw_sys,
            left_first == (fs is Some && e < k),
            handled == (exists|j: int| 0 <= j < k && is_target(l, j)),
            forall|j: int|
                0 <= j < k && in_system(l, j) && (forall|q: int| 0 <= q < j ==> !is_target(l, q)) && (
                first_section_only ==> j < e) ==> key_test_defined(#[trigger] trim(l[j])),
    {
        let line = &ls[k];
        assert(line@ == l[k as int]);
        let t = trim_chars(line.as_slice());
        proof {
            lemma_trim_idempotent(line@);
        }
        if is_header_chars(t.as_slice()) {
            let sys = is_system_header_chars(t.as_slice());
            if saw_sys {
                left_first = true;
            }
            in_sys = sys;
            saw_sys = saw_sys || sys;
            assert(!is_target(l, k as int));
            proof {
                if sys {
                    assert(fs is Some);
                }
            }
        } else {
            if in_sys && !handled {
                let within = !first_section_only || !left_first;
                proof {
                    assert(in_system(l, k as int));
                    if first_section_only && !left_first {
                        assert(k < e);
                    }
                }
                if within && !key_test_defined_chars(t.as_slice()) {
                    proof {
                        assert(!key_test_defined(trim(l[k as int])));
                        assert(forall|q: int| 0 <= q < k ==> !is_target(l, q));
                        if first_section_only {
                            assert(!enable_key_tests_defined(l));
                        } else {
                            assert(!key_tests_defined(l));
                        }
                    }
                    return false;
                }
                if is_key_line_chars(t.as_slice()) {
                    assert(is_target(l, k as int));
                    handled = true;
                } else {
                    assert(!is_target(l, k as int));
                }
            } else {
                proof {
                    if !handled {
                        assert(!is_target(l, k as int));
                    }
                }
            }
        }
    }
    true
}

} // verus!
