//! Undoes the `d3dx.ini` edit that set `check_foreground_window = 0` for background reloads.
//!
//! That setting also made 3DMigoto act on every hotkey system-wide, so mods bound to bare letters
//! toggled while the user typed elsewhere. This puts the value back at startup. Only a line carrying
//! the marker is touched, since the marker is proof the app wrote it and records what it replaced;
//! a bare `check_foreground_window` line is the user's own setting and stays as it is. Every such
//! line inside `[System]` is restored in one pass, so a second pass finds nothing of the app's.

use vstd::prelude::*;
pub use crate::xxmi_config::d3dx_ini_path;
use crate::text::{
    chars_of, crlf, ends_cr, ends_nl, eq_chars, is_white_space, join, joined_text, lemma_join_lf_no_crlf,
    lemma_lines_of_joined, lemma_reassembled_shape, lemma_trim_end_shape, lemma_trim_idempotent, lf, lines,
    lines_of, newline_of, no_newline, occurs_at, reassemble, reassemble_chars, splits_back, starts_with,
    trim, trim_chars, trim_end, trim_start, views,
};
use crate::xxmi_config::{
    assignment, assignment_chars, header_at_or_before, in_system, is_header, is_header_chars,
    is_key_line, is_key_line_chars, is_system_header, is_system_header_chars, is_target, key,
    lemma_header_prefix, lemma_trim_end_keeps, marked_previous,
    marked_previous_chars, marker, reverted_line, was_absent, was_absent_chars,
};
use crate::xxmi_config_laws::{lemma_found_occurs, lemma_header_before_facts, lemma_lines_clean, lemma_trim_clean};

verus! {

/// What the revert makes of line `k`: a key line inside `[System]` goes back to what it recorded
/// (see [`reverted_line`]), and every other line stays as it is.
pub open spec fn cleaned_piece(ls: Seq<Seq<char>>, k: int) -> Seq<Seq<char>> {
    if is_target(ls, k) {
        reverted_line(ls[k])
    } else {
        seq![ls[k]]
    }
}

/// What the revert makes of the first `k` lines.
pub open spec fn cleaned_upto(ls: Seq<Seq<char>>, k: int) -> Seq<Seq<char>>
    decreases k,
{
    if k <= 0 || k > ls.len() {
        Seq::empty()
    } else {
        cleaned_upto(ls, k - 1) + cleaned_piece(ls, k - 1)
    }
}

/// The lines with every key line inside `[System]` reverted.
pub open spec fn cleaned_lines(ls: Seq<Seq<char>>) -> Seq<Seq<char>> {
    cleaned_upto(ls, ls.len() as int)
}

/// What [`revert`] returns: the file with every key line inside `[System]` reverted, put back
/// together with the file's own line ending.
pub open spec fn reverted(contents: Seq<char>) -> Seq<char> {
    reassemble(contents, cleaned_lines(lines(contents)))
}

/// Restores every line this app wrote inside `[System]`, and returns the rest unchanged. The key
/// test compares characters, so it is defined on every line: a line whose first characters are not
/// the key, in whatever script, is simply not a key line.
pub fn revert(contents: &str) -> (r: String)
    ensures
        r@ == reverted(contents@),
{
    let cs = chars_of(contents);
    let ls = lines_of(cs.as_slice());
    let ghost l = lines(contents@);
    let n = ls.len();
    let mut out: Vec<Vec<char>> = Vec::new();
    let mut in_sys = false;
    for k in 0..n
        invariant
            n == l.len(),
            views(ls@) == l,
            in_sys == (match header_at_or_before(l, k - 1) {
                Some(h) => is_system_header(l[h]),
                None => false,
            }),
            views(out@) == cleaned_upto(l, k as int),
    {
        let ghost before = views(out@);
        let line = &ls[k];
        assert(line@ == l[k as int]);
        let t = trim_chars(line.as_slice());
        proof {
            lemma_trim_idempotent(line@);
        }
        if is_header_chars(t.as_slice()) {
            in_sys = is_system_header_chars(t.as_slice());
            out.push(line.clone());
            assert(!is_target(l, k as int));
            assert(views(out@) == before + cleaned_piece(l, k as int));
        } else if in_sys && is_key_line_chars(t.as_slice()) {
            assert(is_target(l, k as int));
            match marked_previous_chars(line.as_slice()) {
                Some(previous) => {
                    let absent = was_absent_chars();
                    if !eq_chars(previous.as_slice(), absent.as_slice()) {
                        out.push(assignment_chars(previous.as_slice()));
                    }
                },
                None => {
                    out.push(line.clone());
                },
            }
            assert(views(out@) == before + cleaned_piece(l, k as int));
        } else {
            assert(!is_target(l, k as int));
            out.push(line.clone());
            assert(views(out@) == before + cleaned_piece(l, k as int));
        }
    }
    reassemble_chars(cs.as_slice(), &out)
}

/// A value the revert writes back carries no marker of its own: nothing in `[System]` records a
/// line that itself recorded one.
pub open spec fn no_nested_marks(ls: Seq<Seq<char>>) -> bool {
    forall|k: int|
        0 <= k < ls.len() && is_target(ls, k) ==> match #[trigger] marked_previous(ls[k]) {
            Some(p) => p != was_absent() ==> marked_previous(assignment(p)) is None,
            None => true,
        }
}

/// Lines with no key line inside `[System]` that carries the marker.
pub open spec fn nothing_marked(ls: Seq<Seq<char>>) -> bool {
    forall|k: int| 0 <= k < ls.len() && is_target(ls, k) ==> #[trigger] marked_previous(ls[k]) is None
}

/// Lines with nothing of the app's left in `[System]` are what the revert leaves of them.
pub proof fn lemma_nothing_marked_is_fixed(ls: Seq<Seq<char>>)
    requires
        nothing_marked(ls),
    ensures
        cleaned_lines(ls) == ls,
{
    lemma_fixed_upto(ls, ls.len() as int);
    assert(ls.take(ls.len() as int) == ls);
}

proof fn lemma_fixed_upto(ls: Seq<Seq<char>>, k: int)
    requires
        nothing_marked(ls),
        0 <= k <= ls.len(),
    ensures
        cleaned_upto(ls, k) == ls.take(k),
    decreases k,
{
    if k > 0 {
        lemma_fixed_upto(ls, k - 1);
        assert(ls.take(k) == ls.take(k - 1).push(ls[k - 1]));
    }
}

/// The text of the header governing position `i`.
pub open spec fn governing(ls: Seq<Seq<char>>, i: int) -> Option<Seq<char>> {
    match header_at_or_before(ls, i) {
        Some(h) => Some(ls[h]),
        None => None,
    }
}

/// The line the revert writes back is not a header.
proof fn lemma_assignment_not_header(previous: Seq<char>)
    ensures
        !is_header(assignment(previous)),
{
    reveal_strlit("check_foreground_window");
    let a = assignment(previous);
    assert(a[0] == 'c');
    assert(trim_start(a) == a);
    lemma_trim_end_keeps(a, 0);
    lemma_trim_end_shape(a);
    let t = trim(a);
    assert(t[0] == 'c');
    assert(t.take(1)[0] == 'c');
    assert(t.take(1) != seq!['[']) by {
        assert(seq!['['][0] == '[');
    }
}

/// Appending to lines leaves the header governing each earlier position as it was.
proof fn lemma_governing_prefix(a: Seq<Seq<char>>, p: Seq<Seq<char>>, i: int)
    requires
        i < a.len(),
    ensures
        governing(a + p, i) == governing(a, i),
        i >= 0 ==> (in_system(a + p, i) == in_system(a, i) && is_target(a + p, i) == is_target(a, i)),
{
    let b = a + p;
    assert forall|j: int| 0 <= j <= i implies a[j] == b[j] by {}
    lemma_header_prefix(a, b, i);
    lemma_header_before_facts(a, i);
    if i >= 0 {
        lemma_header_prefix(a, b, i - 1);
        lemma_header_before_facts(a, i - 1);
    }
}

/// What the revert has written so far: the header governing its end is the one governing the lines
/// read so far, and no key line in `[System]` among it carries the marker.
proof fn lemma_cleaned_upto_shape(ls: Seq<Seq<char>>, k: int)
    requires
        no_nested_marks(ls),
        0 <= k <= ls.len(),
    ensures
        governing(cleaned_upto(ls, k), cleaned_upto(ls, k).len() - 1) == governing(ls, k - 1),
        nothing_marked(cleaned_upto(ls, k)),
    decreases k,
{
    if k > 0 {
        lemma_cleaned_upto_shape(ls, k - 1);
        let out = cleaned_upto(ls, k - 1);
        let p = cleaned_piece(ls, k - 1);
        let o2 = out + p;
        assert(cleaned_upto(ls, k) == o2);
        let j = out.len() as int;
        lemma_governing_prefix(out, p, j - 1);
        assert forall|q: int| 0 <= q < j implies is_target(o2, q) == is_target(out, q) && o2[q] == out[q] by {
            lemma_governing_prefix(out, p, q);
        }
        lemma_header_before_facts(ls, k - 2);
        if is_header(ls[k - 1]) {
            assert(p == seq![ls[k - 1]]);
            assert(o2[j] == ls[k - 1]);
            assert(header_at_or_before(o2, j) == Some(j));
            assert(!is_target(o2, j));
        } else {
            assert(governing(ls, k - 1) == governing(ls, k - 2));
            if is_target(ls, k - 1) {
                match marked_previous(ls[k - 1]) {
                    Some(prev) => {
                        if prev != was_absent() {
                            lemma_assignment_not_header(prev);
                            assert(p == seq![assignment(prev)]);
                        } else {
                            assert(p.len() == 0);
                            assert(o2 == out);
                        }
                    },
                    None => {
                        assert(p == seq![ls[k - 1]]);
                    },
                }
            } else {
                assert(p == seq![ls[k - 1]]);
            }
            if p.len() == 1 {
                assert(!is_header(o2[j]));
                assert(header_at_or_before(o2, j) == header_at_or_before(o2, j - 1));
                assert(in_system(o2, j) == in_system(ls, k - 1)) by {
                    lemma_header_before_facts(o2, j - 1);
                    lemma_header_before_facts(out, j - 1);
                }
                if !is_target(ls, k - 1) {
                    assert(o2[j] == ls[k - 1]);
                    assert(!is_target(o2, j));
                }
            }
        }
        assert forall|q: int| 0 <= q < o2.len() && is_target(o2, q) implies #[trigger] marked_previous(o2[q]) is None by {
            if q < j {
                assert(is_target(out, q));
            }
        }
    }
}

/// Reverting once leaves nothing for a second pass to revert, when no value the revert writes back
/// carries a marker of its own.
pub proof fn lemma_cleaned_settles(ls: Seq<Seq<char>>)
    requires
        no_nested_marks(ls),
    ensures
        nothing_marked(cleaned_lines(ls)),
        cleaned_lines(cleaned_lines(ls)) == cleaned_lines(ls),
{
    lemma_cleaned_upto_shape(ls, ls.len() as int);
    lemma_nothing_marked_is_fixed(cleaned_lines(ls));
}

/// The line the revert writes back holds no `'\n'`, and does not end in `'\r'`, when the value it
/// puts back is trimmed text of a line.
proof fn lemma_assignment_fits(previous: Seq<char>)
    requires
        no_newline(previous),
        previous.len() > 0 ==> !is_white_space(previous.last()),
    ensures
        no_newline(assignment(previous)),
        !ends_cr(assignment(previous)),
{
    reveal_strlit("check_foreground_window");
    reveal_strlit(" = ");
    let head = key() + " = "@;
    let a = assignment(previous);
    assert(a == head + previous);
    assert forall|k: int| 0 <= k < a.len() implies a[k] != '\n' by {
        if k < 23 {
            assert(a[k] == key()[k]);
        } else if k < 26 {
            assert(a[k] == " = "@[k - 23]);
        } else {
            assert(a[k] == previous[k - 26]);
        }
    }
    if previous.len() > 0 {
        assert(a.last() == previous.last());
    } else {
        assert(a.last() == ' ');
    }
}

/// Reverting a key line that holds no `'\n'` leaves lines that hold none either, and none of them
/// ends in `'\r'` unless the line did.
proof fn lemma_reverted_line_fits(line: Seq<char>)
    requires
        no_newline(line),
    ensures
        forall|i: int|
            0 <= i < reverted_line(line).len() ==> no_newline(#[trigger] reverted_line(line)[i]) && (
            !ends_cr(line) ==> !ends_cr(reverted_line(line)[i])),
{
    if let Some(previous) = marked_previous(line) {
        let at = crate::text::find_first(line, marker())->0;
        lemma_found_occurs(line, marker(), 0);
        let piece = line.skip(at + marker().len());
        assert forall|k: int| 0 <= k < piece.len() implies piece[k] != '\n' by {
            assert(piece[k] == line[k + at + marker().len()]);
        }
        lemma_trim_clean(piece);
        if previous != was_absent() {
            lemma_assignment_fits(previous);
        }
    }
}

/// The revert's lines hold no `'\n'`, and in a file with `"\n"` line endings none but the last ends
/// in `'\r'`, nor the last unless the file does.
proof fn lemma_cleaned_lines_fit(contents: Seq<char>)
    ensures
        forall|i: int|
            0 <= i < cleaned_lines(lines(contents)).len() ==> no_newline(
                #[trigger] cleaned_lines(lines(contents))[i],
            ),
        newline_of(contents) == lf() && !ends_cr(contents) ==> forall|i: int|
            0 <= i < cleaned_lines(lines(contents)).len() ==> !ends_cr(#[trigger] cleaned_lines(lines(contents))[i]),
        newline_of(contents) == lf() ==> forall|i: int|
            0 <= i < cleaned_lines(lines(contents)).len() - 1 ==> !ends_cr(#[trigger] cleaned_lines(lines(contents))[i]),
{
    let ls = lines(contents);
    let n = ls.len() as int;
    lemma_lines_clean(contents);
    if newline_of(contents) == lf() && ends_cr(contents) {
        lemma_cleaned_upto_fit(ls, n, false);
        if n > 0 {
            lemma_cleaned_upto_fit(ls, n - 1, true);
            let out = cleaned_upto(ls, n - 1);
            let p = cleaned_piece(ls, n - 1);
            assert(cleaned_lines(ls) == out + p);
            assert(p.len() <= 1);
            assert forall|i: int| 0 <= i < (out + p).len() - 1 implies !ends_cr(#[trigger] (out + p)[i]) by {
                assert((out + p)[i] == out[i]);
            }
        }
    } else {
        lemma_cleaned_upto_fit(ls, n, newline_of(contents) == lf());
    }
}

proof fn lemma_cleaned_upto_fit(ls: Seq<Seq<char>>, k: int, lf_mode: bool)
    requires
        0 <= k <= ls.len(),
        forall|i: int| 0 <= i < ls.len() ==> no_newline(#[trigger] ls[i]),
        lf_mode ==> forall|i: int| 0 <= i < k ==> !ends_cr(#[trigger] ls[i]),
    ensures
        forall|i: int|
            0 <= i < cleaned_upto(ls, k).len() ==> no_newline(#[trigger] cleaned_upto(ls, k)[i]) && (lf_mode
                ==> !ends_cr(cleaned_upto(ls, k)[i])),
    decreases k,
{
    if k > 0 {
        lemma_cleaned_upto_fit(ls, k - 1, lf_mode);
        let out = cleaned_upto(ls, k - 1);
        let p = cleaned_piece(ls, k - 1);
        lemma_reverted_line_fits(ls[k - 1]);
        assert forall|i: int| 0 <= i < (out + p).len() implies no_newline(#[trigger] (out + p)[i]) && (lf_mode
            ==> !ends_cr((out + p)[i])) by {
            if i >= out.len() {
                assert((out + p)[i] == p[i - out.len()]);
            } else {
                assert((out + p)[i] == out[i]);
            }
        }
        assert(cleaned_upto(ls, k) == out + p);
    }
}

/// Text joined from lines with an empty last line ends in the line ending, and splits into the
/// lines before it, in the same style.
proof fn lemma_joined_with_empty_last(once: Seq<Seq<char>>, nl: Seq<char>)
    requires
        nl == lf() || nl == crlf(),
        once.len() >= 2,
        once.last().len() == 0,
        forall|i: int| 0 <= i < once.len() ==> no_newline(#[trigger] once[i]),
        nl == lf() ==> forall|i: int| 0 <= i < once.len() ==> !ends_cr(#[trigger] once[i]),
    ensures
        lines(join(once, nl)) == once.drop_last(),
        ends_nl(join(once, nl)),
        newline_of(join(once, nl)) == nl,
        join(once, nl) == join(once.drop_last(), nl) + nl,
{
    let front = once.drop_last();
    let c2 = join(once, nl);
    assert(c2 == join(front, nl) + nl + once.last());
    assert(c2 == joined_text(front, nl, true));
    assert forall|i: int| 0 <= i < front.len() implies no_newline(#[trigger] front[i]) by {
        assert(front[i] == once[i]);
    }
    if nl == lf() {
        assert forall|i: int| 0 <= i < front.len() implies !ends_cr(#[trigger] front[i]) by {
            assert(front[i] == once[i]);
        }
    }
    assert(splits_back(front, nl, true));
    lemma_lines_of_joined(front, nl, true);
    assert(c2.last() == '\n');
    if nl == crlf() {
        let p = join(front, nl).len() as int;
        assert(c2.subrange(p, p + 2) == crlf());
        assert(occurs_at(c2, crlf(), p));
    } else {
        lemma_join_lf_no_crlf(once);
        assert forall|i: int| !occurs_at(c2, crlf(), i) by {
            if occurs_at(c2, crlf(), i) {
                assert(c2.subrange(i, i + 2)[0] == '\r');
                assert(c2.subrange(i, i + 2)[1] == '\n');
                assert(c2[i] == '\r' && c2[i + 1] == '\n');
            }
        }
    }
}

/// The first line is never a key line inside a section, so the revert keeps it.
proof fn lemma_cleaned_keeps_first(ls: Seq<Seq<char>>, k: int)
    requires
        1 <= k <= ls.len(),
    ensures
        cleaned_upto(ls, k).len() >= 1,
    decreases k,
{
    if k > 1 {
        lemma_cleaned_keeps_first(ls, k - 1);
    } else {
        assert(!is_target(ls, 0));
    }
}

/// Reverting twice changes nothing further, whenever no value the revert writes back carries a
/// marker of its own.
pub proof fn reverting_twice_changes_nothing(contents: Seq<char>)
    requires
        no_nested_marks(lines(contents)),
    ensures
        reverted(reverted(contents)) == reverted(contents),
{
    let ls = lines(contents);
    let once = cleaned_lines(ls);
    let nl = newline_of(contents);
    let t = ends_nl(contents);
    let c2 = reverted(contents);
    lemma_cleaned_lines_fit(contents);
    lemma_cleaned_settles(ls);
    if t {
        crate::text::lemma_newline_index(contents);
        assert(ls.len() > 0);
        lemma_cleaned_keeps_first(ls, ls.len() as int);
    }
    if t || once.len() == 0 || once.last().len() > 0 {
        assert(splits_back(once, nl, t));
        lemma_reassembled_shape(contents, once);
        assert(lines(c2) == once);
        if !(once.len() >= 2 || t) {
            assert(!ends_nl(c2));
            if once.len() == 1 {
                assert(join(once, newline_of(c2)) == once[0]);
                assert(join(once, nl) == once[0]);
            }
        }
    } else if once.len() == 1 {
        assert(c2 == join(once, nl));
        assert(c2 == once[0]);
        assert(lines(c2) == Seq::<Seq<char>>::empty());
        assert(cleaned_lines(Seq::<Seq<char>>::empty()) == Seq::<Seq<char>>::empty());
    } else {
        assert(c2 == join(once, nl));
        lemma_joined_with_empty_last(once, nl);
        let front = once.drop_last();
        assert forall|k: int| 0 <= k < front.len() && is_target(front, k) implies #[trigger] marked_previous(front[k]) is None by {
            lemma_governing_prefix(front, seq![once.last()], k);
            assert(front + seq![once.last()] == once);
        }
        lemma_nothing_marked_is_fixed(front);
    }
}

} // verus!
