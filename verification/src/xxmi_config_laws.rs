//! What turning background hotkeys on and off promises across calls: turning them on a second time
//! changes nothing, and turning them off afterwards takes back what turning them on did.

use vstd::prelude::*;
use crate::text::{crlf, ends_cr, lemma_reassemble_own_lines, one_line_ending, ends_nl, is_white_space, join, lemma_last_line_not_empty, lemma_lines_have_no_newline, lemma_lines_without_cr, lemma_no_crlf_of, lemma_reassembled_shape, lemma_trim_end_shape, lemma_trim_idempotent, lemma_trim_start_shape, lf, lines, newline_of, no_newline, splits_back, trim, trim_end, trim_start};
use crate::xxmi_config::{assignment, current_value, key, marker, enabled_line, enabled_lines, first_system_end, first_system_from, first_target, first_target_from, header_at_or_before, in_system, is_header, is_key_line, is_system_header, is_target, lemma_enabled_line_fixed, lemma_first_system_facts, lemma_first_target_found, lemma_first_target_skip, lemma_governed_by_first_system, lemma_header_prefix, lemma_managed_line_facts, lemma_next_header_facts, lemma_same_shape, lemma_system_header_is_header, managed_line, marked_previous, next_header_from, reverted_line, reverted_lines, rewritten, system_header, was_absent};

verus! {

/// The header governing line `k` is a header at or before `k`.
pub proof fn lemma_header_before_facts(ls: Seq<Seq<char>>, k: int)
    requires
        k < ls.len(),
    ensures
        header_at_or_before(ls, k) matches Some(h) ==> 0 <= h <= k && is_header(ls[h]),
    decreases k + 1,
{
    if k >= 0 && !is_header(ls[k]) {
        lemma_header_before_facts(ls, k - 1);
    }
}

proof fn lemma_first_system_from_is(ls: Seq<Seq<char>>, i: int, s: int)
    requires
        0 <= i <= s < ls.len(),
        is_system_header(ls[s]),
        forall|j: int| i <= j < s ==> !is_system_header(#[trigger] ls[j]),
    ensures
        first_system_from(ls, i) == Some(s),
    decreases s - i,
{
    if i < s {
        lemma_first_system_from_is(ls, i + 1, s);
    }
}

proof fn lemma_next_header_is(ls: Seq<Seq<char>>, i: int, m: int)
    requires
        0 <= i <= m <= ls.len(),
        forall|j: int| i <= j < m ==> !is_header(#[trigger] ls[j]),
        m < ls.len() ==> is_header(ls[m]),
    ensures
        next_header_from(ls, i) == m,
    decreases m - i,
{
    if i < m {
        lemma_next_header_is(ls, i + 1, m);
    }
}

/// The first target is `t` when `t` is a target and none comes before it.
pub proof fn lemma_first_target_is(ls: Seq<Seq<char>>, t: int)
    requires
        0 <= t < ls.len(),
        is_target(ls, t),
        forall|j: int| 0 <= j < t ==> !is_target(ls, j),
    ensures
        first_target(ls) == Some(t),
{
    lemma_first_target_skip(ls, 0, t);
}

/// Text with no white space at either end is its own trim.
proof fn lemma_trim_plain(s: Seq<char>)
    requires
        s.len() > 0,
        !crate::text::is_white_space(s[0]),
        !crate::text::is_white_space(s.last()),
    ensures
        trim(s) == s,
{
}

/// The line added for an absent key reads back as absent, so enabling leaves it as it is.
proof fn lemma_added_line_fixed()
    ensures
        enabled_line(managed_line(was_absent())) == managed_line(was_absent()),
        marked_previous(managed_line(was_absent())) == Some(was_absent()),
        !is_header(managed_line(was_absent())),
        is_key_line(trim(managed_line(was_absent()))),
{
    reveal_strlit("absent");
    lemma_trim_plain(was_absent());
    lemma_managed_line_facts(was_absent());
}

/// Enabling a key line keeps it a key line and not a header.
proof fn lemma_enabled_line_shape(line: Seq<char>)
    requires
        !is_header(line),
        is_key_line(trim(line)),
    ensures
        !is_header(enabled_line(line)),
        is_key_line(trim(enabled_line(line))),
{
    match marked_previous(line) {
        Some(previous) => lemma_managed_line_facts(previous),
        None => lemma_managed_line_facts(crate::xxmi_config::current_value(trim(line))),
    }
}

/// The `[System]` header written into a file without one is a `[System]` header, and the blank line
/// before it is neither a header nor a key line.
proof fn lemma_new_section_lines()
    ensures
        is_system_header(system_header()),
        is_header(system_header()),
        !is_system_header(Seq::<char>::empty()),
        !is_header(Seq::<char>::empty()),
        !is_key_line(trim(Seq::<char>::empty())),
{
    reveal_strlit("[System]");
    reveal_strlit("check_foreground_window");
    lemma_trim_plain(system_header());
    assert(crate::text::eq_ignore_ascii_case(trim(system_header()), system_header()));
    lemma_system_header_is_header(system_header());
    assert(trim(Seq::<char>::empty()) == Seq::<char>::empty());
}

/// Whether the first `[System]` section holds a key line: the one turning the setting on rewrites.
pub open spec fn has_key_in_first_system(ls: Seq<Seq<char>>) -> bool {
    first_target(ls) matches Some(t) && t < first_system_end(ls)
}

/// In a file with `[System]` whose first section has no key line, the added line lands at the end of
/// that section and is the first key line of the result.
proof fn lemma_inserted_is_first_target(ls: Seq<Seq<char>>)
    requires
        first_system_from(ls, 0) is Some,
        !has_key_in_first_system(ls),
    ensures
        ({
            let e = first_system_end(ls);
            let ls2 = ls.take(e) + seq![managed_line(was_absent())] + ls.skip(e);
            &&& first_target(ls2) == Some(e)
            &&& first_system_from(ls2, 0) == first_system_from(ls, 0)
            &&& first_system_end(ls2) == e + 1
        }),
{
    let s = first_system_from(ls, 0)->0;
    let e = first_system_end(ls);
    let added = managed_line(was_absent());
    let ls2 = ls.take(e) + seq![added] + ls.skip(e);
    let n = ls.len() as int;
    lemma_first_system_facts(ls, 0);
    lemma_next_header_facts(ls, s + 1);
    lemma_system_header_is_header(ls[s]);
    lemma_first_target_found(ls, 0);
    lemma_added_line_fixed();
    assert(s < e <= n);
    assert(ls2.len() == n + 1);
    assert forall|j: int| 0 <= j < e implies ls2[j] == ls[j] by {}
    assert(ls2[e] == added);
    assert forall|j: int| e < j < n + 1 implies ls2[j] == ls[j - 1] by {}
    assert forall|j: int| 0 <= j < s implies !is_system_header(#[trigger] ls2[j]) by {
        assert(ls2[j] == ls[j]);
    }
    lemma_first_system_from_is(ls2, 0, s);
    assert forall|j: int| s + 1 <= j < e + 1 implies !is_header(#[trigger] ls2[j]) by {
        if j < e {
            assert(ls2[j] == ls[j]);
        }
    }
    if e + 1 < n + 1 {
        assert(ls2[e + 1] == ls[e]);
    }
    lemma_next_header_is(ls2, s + 1, e + 1);
    assert forall|k: int| 0 <= k < e implies !is_target(ls2, k) by {
        assert(!is_target(ls, k));
        assert(ls2[k] == ls[k]);
        lemma_header_prefix(ls, ls2, k - 1);
        lemma_header_before_facts(ls, k - 1);
        if let Some(h) = header_at_or_before(ls, k - 1) {
            assert(ls2[h] == ls[h]);
        }
    }
    assert(ls2[s] == ls[s]);
    lemma_governed_by_first_system(ls2, s, e);
    assert(in_system(ls2, e));
    assert(is_target(ls2, e));
    lemma_first_target_is(ls2, e);
}

/// Turning background hotkeys on a second time changes no line.
pub proof fn enabling_lines_twice_changes_nothing(ls: Seq<Seq<char>>)
    ensures
        enabled_lines(enabled_lines(ls)) == enabled_lines(ls),
{
    let added = managed_line(was_absent());
    lemma_added_line_fixed();
    lemma_first_system_facts(ls, 0);
    lemma_first_target_found(ls, 0);
    match first_system_from(ls, 0) {
        None => {
            let n = ls.len() as int;
            let ls2 = ls + seq![Seq::<char>::empty(), system_header(), added];
            lemma_new_section_lines();
            assert(enabled_lines(ls) == ls2);
            assert forall|j: int| 0 <= j < n + 1 implies !is_system_header(#[trigger] ls2[j]) by {
                if j < n {
                    assert(ls2[j] == ls[j]);
                }
            }
            lemma_first_system_from_is(ls2, 0, n + 1);
            assert(!is_header(ls2[n + 2]));
            lemma_next_header_is(ls2, n + 2, n + 3);
            assert(first_system_end(ls2) == n + 3);
            assert forall|k: int| 0 <= k < n + 2 implies !is_target(ls2, k) by {
                if k < n {
                    lemma_header_before_facts(ls2, k - 1);
                    if let Some(h) = header_at_or_before(ls2, k - 1) {
                        assert(ls2[h] == ls[h]);
                    }
                } else if k == n {
                    assert(ls2[k] == Seq::<char>::empty());
                } else {
                    assert(ls2[k] == system_header());
                }
            }
            assert(ls2[n + 1] == system_header());
            assert(header_at_or_before(ls2, n + 1) == Some(n + 1));
            assert(is_target(ls2, n + 2));
            lemma_first_target_is(ls2, n + 2);
            assert(ls2.update(n + 2, enabled_line(ls2[n + 2])) == ls2);
        },
        Some(s) => {
            if has_key_in_first_system(ls) {
                let t = first_target(ls)->0;
                let x = enabled_line(ls[t]);
                let ls2 = ls.update(t, x);
                assert(enabled_lines(ls) == ls2);
                lemma_enabled_line_shape(ls[t]);
                assert forall|k: int| 0 <= k < ls.len() implies is_header(#[trigger] ls[k]) == is_header(ls2[k]) by {}
                assert forall|k: int| 0 <= k < ls.len() && is_header(#[trigger] ls[k]) implies ls[k] == ls2[k] by {}
                assert forall|k: int| 0 <= k < ls.len() implies is_key_line(trim(#[trigger] ls[k])) == is_key_line(trim(ls2[k])) by {}
                lemma_same_shape(ls, ls2);
                lemma_enabled_line_fixed(ls[t]);
                assert(ls2.update(t, enabled_line(ls2[t])) == ls2);
            } else {
                let e = first_system_end(ls);
                let ls2 = ls.take(e) + seq![added] + ls.skip(e);
                lemma_next_header_facts(ls, s + 1);
                assert(enabled_lines(ls) == ls2);
                lemma_inserted_is_first_target(ls);
                assert(ls2[e] == added);
                assert(ls2.update(e, enabled_line(ls2[e])) == ls2);
            }
        },
    }
}

/// What turning the setting off leaves after turning it on: every line as it was, except the key
/// line of the first `[System]` section, which reads back the value it had (or, when it already
/// held a zero of the user's, stays as it is); a key line the app added is taken out again, and
/// a file that had no `[System]` keeps the blank line and header that were added for it.
pub open spec fn enabled_then_reverted(ls: Seq<Seq<char>>) -> Seq<Seq<char>> {
    match first_system_from(ls, 0) {
        None => ls + seq![Seq::<char>::empty(), system_header()],
        Some(_) => if has_key_in_first_system(ls) {
            let t = first_target(ls)->0;
            ls.take(t) + reverted_line(enabled_line(ls[t])) + ls.skip(t + 1)
        } else {
            ls
        },
    }
}

proof fn lemma_undo_without_system(ls: Seq<Seq<char>>)
    requires
        first_system_from(ls, 0) is None,
    ensures
        reverted_lines(enabled_lines(ls)) == enabled_then_reverted(ls),
{
    let added = managed_line(was_absent());
    lemma_added_line_fixed();
    lemma_first_system_facts(ls, 0);
    reveal_strlit("absent");
    let n = ls.len() as int;
    let ls2 = ls + seq![Seq::<char>::empty(), system_header(), added];
    lemma_new_section_lines();
    assert(enabled_lines(ls) == ls2);
    assert forall|k: int| 0 <= k < n + 2 implies !is_target(ls2, k) by {
        if k < n {
            lemma_header_before_facts(ls2, k - 1);
            if let Some(h) = header_at_or_before(ls2, k - 1) {
                assert(ls2[h] == ls[h]);
            }
        } else if k == n {
            assert(ls2[k] == Seq::<char>::empty());
        } else {
            assert(ls2[k] == system_header());
        }
    }
    assert(ls2[n + 1] == system_header());
    assert(header_at_or_before(ls2, n + 1) == Some(n + 1));
    assert(is_target(ls2, n + 2));
    lemma_first_target_is(ls2, n + 2);
    assert(reverted_line(added) == Seq::<Seq<char>>::empty());
    assert(ls2.take(n + 2) == ls + seq![Seq::<char>::empty(), system_header()]);
    assert(ls2.skip(n + 3) == Seq::<Seq<char>>::empty());
}

proof fn lemma_undo_rewritten_key(ls: Seq<Seq<char>>)
    requires
        first_system_from(ls, 0) is Some,
        has_key_in_first_system(ls),
    ensures
        reverted_lines(enabled_lines(ls)) == enabled_then_reverted(ls),
{
    lemma_first_target_found(ls, 0);
    let t = first_target(ls)->0;
    let x = enabled_line(ls[t]);
    let ls2 = ls.update(t, x);
    assert(enabled_lines(ls) == ls2);
    lemma_enabled_line_shape(ls[t]);
    assert forall|k: int| 0 <= k < ls.len() implies is_header(#[trigger] ls[k]) == is_header(ls2[k]) by {}
    assert forall|k: int| 0 <= k < ls.len() && is_header(#[trigger] ls[k]) implies ls[k] == ls2[k] by {}
    assert forall|k: int| 0 <= k < ls.len() implies is_key_line(trim(#[trigger] ls[k])) == is_key_line(trim(ls2[k])) by {}
    lemma_same_shape(ls, ls2);
    assert(ls2.take(t) == ls.take(t));
    assert(ls2.skip(t + 1) == ls.skip(t + 1));
}

proof fn lemma_undo_added_key(ls: Seq<Seq<char>>)
    requires
        first_system_from(ls, 0) is Some,
        !has_key_in_first_system(ls),
    ensures
        reverted_lines(enabled_lines(ls)) == enabled_then_reverted(ls),
{
    let added = managed_line(was_absent());
    lemma_added_line_fixed();
    reveal_strlit("absent");
    let s = first_system_from(ls, 0)->0;
    lemma_first_system_facts(ls, 0);
    lemma_next_header_facts(ls, s + 1);
    let e = first_system_end(ls);
    let ls2 = ls.take(e) + seq![added] + ls.skip(e);
    assert(enabled_lines(ls) == ls2);
    lemma_inserted_is_first_target(ls);
    assert(ls2[e] == added);
    assert(reverted_line(added) == Seq::<Seq<char>>::empty());
    assert(ls2.take(e) == ls.take(e));
    assert(ls2.skip(e + 1) == ls.skip(e));
    assert(ls.take(e) + ls.skip(e) == ls);
}

/// Turning the setting off after turning it on takes back what turning it on did.
pub proof fn disabling_undoes_enabling_lines(ls: Seq<Seq<char>>)
    ensures
        reverted_lines(enabled_lines(ls)) == enabled_then_reverted(ls),
{
    if first_system_from(ls, 0) is None {
        lemma_undo_without_system(ls);
    } else if has_key_in_first_system(ls) {
        lemma_undo_rewritten_key(ls);
    } else {
        lemma_undo_added_key(ls);
    }
}

/// A key line of the user's comes back from turning the setting on and then off as
/// `check_foreground_window = <its value>`, except that a zero is never touched and a value that
/// reads `absent` is taken for the app's own record of an absent key.
pub proof fn users_key_line_after_enable_and_revert(line: Seq<char>)
    requires
        marked_previous(line) is None,
    ensures
        current_value(trim(line)) == "0"@ ==> reverted_line(enabled_line(line)) == seq![line],
        current_value(trim(line)) != "0"@ && current_value(trim(line)) != was_absent()
            ==> reverted_line(enabled_line(line)) == seq![assignment(current_value(trim(line)))],
        current_value(trim(line)) == was_absent() ==> reverted_line(enabled_line(line))
            == Seq::<Seq<char>>::empty(),
{
    let v = current_value(trim(line));
    reveal_strlit("absent");
    reveal_strlit("0");
    assert(was_absent().len() != "0"@.len());
    if v != "0"@ {
        lemma_managed_line_facts(v);
        let after_eq = match crate::text::find_first(trim(line), seq!['=']) {
            Some(i) => trim(line).skip(i + 1),
            None => Seq::<char>::empty(),
        };
        let before_comment = match crate::text::find_first(after_eq, seq![';']) {
            Some(j) => after_eq.take(j),
            None => after_eq,
        };
        lemma_trim_idempotent(before_comment);
        assert(trim(v) == v);
    }
}

/// The lines turned on are never fewer than two: a key line needs a header above it, an added key
/// line goes below a header, and a file without `[System]` gets a header and a key line.
proof fn lemma_enabled_lines_len(ls: Seq<Seq<char>>)
    ensures
        enabled_lines(ls).len() >= 2,
{
    lemma_first_system_facts(ls, 0);
    lemma_first_target_found(ls, 0);
    if let Some(s) = first_system_from(ls, 0) {
        lemma_next_header_facts(ls, s + 1);
        if has_key_in_first_system(ls) {
            let t = first_target(ls)->0;
            if ls.len() < 2 {
                assert(t == 0);
                assert(header_at_or_before(ls, -1) is None);
                assert(!in_system(ls, 0));
            }
        }
    }
}

/// Turning the setting off after turning it on gives the file back with the lines of
/// [`enabled_then_reverted`], in the file's own line ending; except in a file with `"\n"` line
/// endings that ends in a bare `'\r'` and gets lines after it ([`enabling_appends`]), where turning
/// it on turns that `'\r'` into part of a line ending.
pub proof fn disabling_undoes_enabling(contents: Seq<char>)
    requires
        !(newline_of(contents) == lf() && ends_cr(contents) && enabling_appends(lines(contents))),
    ensures
        rewritten(rewritten(contents, true), false) == crate::text::reassemble(
            contents,
            enabled_then_reverted(lines(contents)),
        ),
{
    let once = enabled_lines(lines(contents));
    enabled_lines_split_back(contents);
    lemma_reassembled_shape(contents, once);
    lemma_enabled_lines_len(lines(contents));
    disabling_undoes_enabling_lines(lines(contents));
}

/// A key line that comes back exactly as it was from turning the setting on and then off: the
/// user's own line (it carries no marker) when it holds a zero, or when it is written
/// `check_foreground_window = <value>` with a value other than `absent`.
pub open spec fn restorable_key_line(line: Seq<char>) -> bool {
    &&& marked_previous(line) is None
    &&& current_value(trim(line)) == "0"@ || (current_value(trim(line)) != was_absent() && line
        == assignment(current_value(trim(line))))
}

/// Turning background hotkeys off after turning them on gives back the file as it was, for a file
/// that has a `[System]` section, whose key line there (if there is one) is restorable, and that
/// keeps to one line ending; a file with `"\n"` line endings that ends in a bare `'\r'` and gets
/// lines after it is left out, as for [`disabling_undoes_enabling`].
pub proof fn disabling_gives_back_the_file(contents: Seq<char>)
    requires
        first_system_from(lines(contents), 0) is Some,
        has_key_in_first_system(lines(contents)) ==> restorable_key_line(
            lines(contents)[first_target(lines(contents))->0],
        ),
        one_line_ending(contents),
        !(newline_of(contents) == lf() && ends_cr(contents) && enabling_appends(lines(contents))),
    ensures
        rewritten(rewritten(contents, true), false) == contents,
{
    let ls = lines(contents);
    disabling_undoes_enabling(contents);
    if has_key_in_first_system(ls) {
        lemma_first_target_found(ls, 0);
        let t = first_target(ls)->0;
        users_key_line_after_enable_and_revert(ls[t]);
        reveal_strlit("0");
        assert(reverted_line(enabled_line(ls[t])) == seq![ls[t]]);
        assert(ls.take(t) + seq![ls[t]] + ls.skip(t + 1) =~= ls);
    }
    assert(enabled_then_reverted(ls) == ls);
    lemma_reassemble_own_lines(contents);
}

/// Turning background hotkeys on twice gives the same file as turning them on once; except in a
/// file with `"\n"` line endings that ends in a bare `'\r'` and gets lines after it
/// ([`enabling_appends`]), where the first turn makes that `'\r'` part of a `"\r\n"` and the
/// second then writes the whole file with `"\r\n"`.
pub proof fn enabling_twice_changes_nothing(contents: Seq<char>)
    requires
        !(newline_of(contents) == lf() && ends_cr(contents) && enabling_appends(lines(contents))),
    ensures
        rewritten(rewritten(contents, true), true) == rewritten(contents, true),
{
    let once = enabled_lines(lines(contents));
    let c2 = rewritten(contents, true);
    enabled_lines_split_back(contents);
    lemma_reassembled_shape(contents, once);
    enabling_lines_twice_changes_nothing(lines(contents));
    assert(lines(c2) == once);
    if !(once.len() >= 2 || ends_nl(contents)) {
        assert(!ends_nl(c2));
        if once.len() == 1 {
            assert(join(once, newline_of(c2)) == once[0]);
            assert(join(once, newline_of(contents)) == once[0]);
        }
    }
}

/// Turning background hotkeys on keeps the file's line-ending style and whether it ends in a line
/// ending; except in a file with `"\n"` line endings that ends in a bare `'\r'` and gets lines
/// after it ([`enabling_appends`]).
pub proof fn enabling_keeps_the_line_endings(contents: Seq<char>)
    requires
        !(newline_of(contents) == lf() && ends_cr(contents) && enabling_appends(lines(contents))),
    ensures
        ends_nl(rewritten(contents, true)) == ends_nl(contents),
        newline_of(rewritten(contents, true)) == newline_of(contents),
{
    enabled_lines_split_back(contents);
    lemma_reassembled_shape(contents, enabled_lines(lines(contents)));
    lemma_enabled_lines_len(lines(contents));
}

/// Turning background hotkeys off keeps the file's line-ending style and whether it ends in a line
/// ending, for files whose reverted lines split back into themselves and that keep at least two
/// lines or a final line ending (a single line shows no style at all).
pub proof fn disabling_keeps_the_line_endings(contents: Seq<char>)
    requires
        splits_back(reverted_lines(lines(contents)), newline_of(contents), ends_nl(contents)),
        reverted_lines(lines(contents)).len() >= 2 || ends_nl(contents),
    ensures
        ends_nl(rewritten(contents, false)) == ends_nl(contents),
        newline_of(rewritten(contents, false)) == newline_of(contents),
{
    lemma_reassembled_shape(contents, reverted_lines(lines(contents)));
}

/// Where a search finds its piece, the piece is there.
pub proof fn lemma_found_occurs(s: Seq<char>, p: Seq<char>, i: int)
    requires
        0 <= i,
    ensures
        crate::text::find_from(s, p, i) matches Some(x) ==> i <= x && crate::text::occurs_at(s, p, x),
    decreases s.len() + 1 - i,
{
    if i <= s.len() && !crate::text::occurs_at(s, p, i) {
        lemma_found_occurs(s, p, i + 1);
    }
}

/// Trimming keeps a text free of `'\n'`, and what it leaves does not end in white space.
pub proof fn lemma_trim_clean(s: Seq<char>)
    ensures
        no_newline(s) ==> no_newline(trim(s)),
        trim(s).len() > 0 ==> !is_white_space(trim(s).last()),
{
    lemma_trim_start_shape(s);
    let ts = trim_start(s);
    lemma_trim_end_shape(ts);
    let te = trim_end(ts);
    if no_newline(s) {
        assert forall|k: int| 0 <= k < te.len() implies te[k] != '\n' by {
            assert(te[k] == ts[k]);
            assert(ts[k] == s[k + s.len() - ts.len()]);
        }
    }
}

/// The fixed start of the line the app writes holds no `'\n'`.
proof fn lemma_managed_head_clean()
    ensures
        no_newline(key() + " = 0   "@ + marker()),
        marker().len() > 0 && marker().last() == ' ',
{
    reveal_strlit("check_foreground_window");
    reveal_strlit(" = 0   ");
    reveal_strlit("; managed by Eous Modify, was ");
    let head = key() + " = 0   "@ + marker();
    assert forall|k: int| 0 <= k < head.len() implies head[k] != '\n' by {
        if k < 23 {
            assert(head[k] == key()[k]);
        } else if k < 30 {
            assert(head[k] == " = 0   "@[k - 23]);
        } else {
            assert(head[k] == marker()[k - 30]);
        }
    }
}

/// The line the app writes fits back into the file when the state it records does: no `'\n'`,
/// and no `'\r'` at its end.
proof fn lemma_managed_line_fits(previous: Seq<char>)
    requires
        no_newline(previous),
        previous.len() > 0 ==> !is_white_space(previous.last()),
    ensures
        no_newline(managed_line(previous)),
        !ends_cr(managed_line(previous)),
{
    lemma_managed_head_clean();
    let head = key() + " = 0   "@ + marker();
    let m = managed_line(previous);
    assert(m == head + previous);
    assert forall|k: int| 0 <= k < m.len() implies m[k] != '\n' by {
        if k < head.len() {
            assert(m[k] == head[k]);
        } else {
            assert(m[k] == previous[k - head.len()]);
        }
    }
    if previous.len() > 0 {
        assert(m.last() == previous.last());
    } else {
        assert(m.last() == head.last());
        assert(head.last() == marker().last());
    }
}

/// Turning a clean key line on leaves a clean line.
proof fn lemma_enabled_line_fits(line: Seq<char>)
    requires
        no_newline(line),
    ensures
        no_newline(enabled_line(line)),
        !ends_cr(line) ==> !ends_cr(enabled_line(line)),
{
    match marked_previous(line) {
        Some(previous) => {
            let at = crate::text::find_first(line, marker())->0;
            lemma_found_occurs(line, marker(), 0);
            let piece = line.skip(at + marker().len());
            assert forall|k: int| 0 <= k < piece.len() implies piece[k] != '\n' by {
                assert(piece[k] == line[k + at + marker().len()]);
            }
            lemma_trim_clean(piece);
            lemma_managed_line_fits(previous);
        },
        None => {
            let t = trim(line);
            lemma_trim_clean(line);
            lemma_found_occurs(t, seq!['='], 0);
            let after_eq = match crate::text::find_first(t, seq!['=']) {
                Some(i) => t.skip(i + 1),
                None => Seq::<char>::empty(),
            };
            assert forall|k: int| 0 <= k < after_eq.len() implies after_eq[k] != '\n' by {
                if let Some(i) = crate::text::find_first(t, seq!['=']) {
                    assert(after_eq[k] == t[k + i + 1]);
                }
            }
            let before_comment = match crate::text::find_first(after_eq, seq![';']) {
                Some(j) => after_eq.take(j),
                None => after_eq,
            };
            lemma_found_occurs(after_eq, seq![';'], 0);
            assert forall|k: int| 0 <= k < before_comment.len() implies before_comment[k] != '\n' by {
                assert(before_comment[k] == after_eq[k]);
            }
            lemma_trim_clean(before_comment);
            let v = current_value(t);
            if v != "0"@ {
                lemma_managed_line_fits(v);
            }
        },
    }
}

pub proof fn lemma_lines_clean(contents: Seq<char>)
    ensures
        forall|i: int| 0 <= i < lines(contents).len() ==> no_newline(#[trigger] lines(contents)[i]),
        newline_of(contents) == lf() && !ends_cr(contents) ==> forall|i: int|
            0 <= i < lines(contents).len() ==> !ends_cr(#[trigger] lines(contents)[i]),
        newline_of(contents) == lf() ==> forall|i: int|
            0 <= i < lines(contents).len() - 1 ==> !ends_cr(#[trigger] lines(contents)[i]),
{
    let ls = lines(contents);
    lemma_lines_have_no_newline(contents);
    assert forall|i: int| 0 <= i < ls.len() implies no_newline(#[trigger] ls[i]) by {
        assert forall|k: int| 0 <= k < ls[i].len() implies ls[i][k] != '\n' by {
            assert(lines(contents)[i][k] != '\n');
        }
    }
    if newline_of(contents) == lf() {
        assert(!crate::text::contains_seq(contents, crlf()));
        lemma_no_crlf_of(contents);
        crate::text::lemma_lines_cr_only_last(contents);
        if !ends_cr(contents) {
            lemma_lines_without_cr(contents);
        }
    }
}

/// Whether turning the setting on puts lines after the last line of the file: when it has no
/// `[System]` section, or when its first one holds no key line and runs to the end of the file.
pub open spec fn enabling_appends(ls: Seq<Seq<char>>) -> bool {
    first_system_from(ls, 0) is None || (!has_key_in_first_system(ls) && first_system_end(ls) == ls.len())
}

/// Turning background hotkeys on gives lines that split back into themselves, unless the file
/// uses `"\n"` line endings, ends in a bare `'\r'`, and gets lines after that one: the `'\r'` would
/// meet the line ending written after it and become a `"\r\n"`.
pub proof fn enabled_lines_split_back(contents: Seq<char>)
    requires
        !(newline_of(contents) == lf() && ends_cr(contents) && enabling_appends(lines(contents))),
    ensures
        splits_back(enabled_lines(lines(contents)), newline_of(contents), ends_nl(contents)),
{
    if newline_of(contents) == lf() && ends_cr(contents) {
        enabled_lines_split_back_after_cr(contents);
    } else {
        enabled_lines_split_back_plain(contents);
    }
}

/// The case of a file with `"\n"` line endings that ends in a bare `'\r'`, where no line is put
/// after its last one.
proof fn enabled_lines_split_back_after_cr(contents: Seq<char>)
    requires
        newline_of(contents) == lf(),
        ends_cr(contents),
        !enabling_appends(lines(contents)),
    ensures
        splits_back(enabled_lines(lines(contents)), newline_of(contents), ends_nl(contents)),
{
    let ls = lines(contents);
    let out = enabled_lines(ls);
    let added = managed_line(was_absent());
    lemma_lines_clean(contents);
    assert(!ends_nl(contents));
    lemma_last_line_not_empty(contents);
    reveal_strlit("absent");
    lemma_trim_plain(was_absent());
    lemma_managed_line_fits(was_absent());
    lemma_first_system_facts(ls, 0);
    lemma_first_target_found(ls, 0);
    let s = first_system_from(ls, 0)->0;
    lemma_next_header_facts(ls, s + 1);
    if has_key_in_first_system(ls) {
        let t = first_target(ls)->0;
        lemma_enabled_line_fits(ls[t]);
        assert(out == ls.update(t, enabled_line(ls[t])));
        assert forall|i: int| 0 <= i < out.len() implies no_newline(#[trigger] out[i]) by {
            if i != t {
                assert(out[i] == ls[i]);
            }
        }
        assert forall|i: int| 0 <= i < out.len() - 1 implies !ends_cr(#[trigger] out[i]) by {
            if i != t {
                assert(out[i] == ls[i]);
            }
        }
        if t == ls.len() - 1 {
            lemma_enabled_line_shape(ls[t]);
            reveal_strlit("check_foreground_window");
            assert(trim(enabled_line(ls[t])).len() >= 23);
            lemma_trim_start_shape(enabled_line(ls[t]));
            lemma_trim_end_shape(trim_start(enabled_line(ls[t])));
        } else {
            assert(out.last() == ls.last());
        }
    } else {
        let e = first_system_end(ls);
        assert(e < ls.len());
        assert(out == ls.take(e) + seq![added] + ls.skip(e));
        assert forall|i: int| 0 <= i < out.len() implies no_newline(#[trigger] out[i]) by {
            if i < e {
                assert(out[i] == ls[i]);
            } else if i > e {
                assert(out[i] == ls[i - 1]);
            }
        }
        assert forall|i: int| 0 <= i < out.len() - 1 implies !ends_cr(#[trigger] out[i]) by {
            if i < e {
                assert(out[i] == ls[i]);
            } else if i > e {
                assert(out[i] == ls[i - 1]);
            }
        }
        assert(out.last() == ls.last());
    }
}

/// The case of every other file.
proof fn enabled_lines_split_back_plain(contents: Seq<char>)
    requires
        !(newline_of(contents) == lf() && ends_cr(contents)),
    ensures
        splits_back(enabled_lines(lines(contents)), newline_of(contents), ends_nl(contents)),
{
    let ls = lines(contents);
    let nl = newline_of(contents);
    let added = managed_line(was_absent());
    let out = enabled_lines(ls);
    lemma_lines_clean(contents);
    lemma_enabled_lines_len(ls);
    reveal_strlit("absent");
    reveal_strlit("[System]");
    lemma_trim_plain(was_absent());
    lemma_managed_line_fits(was_absent());
    assert(no_newline(system_header()));
    assert(system_header().last() == ']');
    lemma_first_system_facts(ls, 0);
    lemma_first_target_found(ls, 0);
    let fits = |l: Seq<char>| no_newline(l) && (nl == lf() ==> !ends_cr(l));
    match first_system_from(ls, 0) {
        None => {
            let n = ls.len() as int;
            assert forall|i: int| 0 <= i < out.len() implies #[trigger] fits(out[i]) by {
                if i < n {
                    assert(out[i] == ls[i]);
                }
            }
            assert(out.last() == added);
        },
        Some(s) => {
            lemma_next_header_facts(ls, s + 1);
            if has_key_in_first_system(ls) {
                let t = first_target(ls)->0;
                lemma_enabled_line_fits(ls[t]);
                assert forall|i: int| 0 <= i < out.len() implies #[trigger] fits(out[i]) by {
                    if i != t {
                        assert(out[i] == ls[i]);
                    }
                }
                reveal_strlit("check_foreground_window");
                if !ends_nl(contents) {
                    lemma_last_line_not_empty(contents);
                    if t == ls.len() - 1 {
                        lemma_enabled_line_shape(ls[t]);
                        assert(trim(enabled_line(ls[t])).len() >= 23);
                        lemma_trim_start_shape(enabled_line(ls[t]));
                        lemma_trim_end_shape(trim_start(enabled_line(ls[t])));
                    } else {
                        assert(out.last() == ls.last());
                    }
                }
            } else {
                let e = first_system_end(ls);
                assert forall|i: int| 0 <= i < out.len() implies #[trigger] fits(out[i]) by {
                    if i < e {
                        assert(out[i] == ls[i]);
                    } else if i > e {
                        assert(out[i] == ls[i - 1]);
                    }
                }
                if !ends_nl(contents) {
                    if e < ls.len() {
                        lemma_last_line_not_empty(contents);
                        assert(out.last() == ls.last());
                    } else {
                        assert(out.last() == added);
                    }
                }
            }
        },
    }
}

} // verus!
