//! Slugs for the built-in agent and category definitions.

use vstd::prelude::*;
use crate::text::{chars_of, is_ascii, join, lowercase, string_of, to_lowercase};

verus! {

/// An ASCII letter or digit.
pub open spec fn is_ascii_alnum(c: char) -> bool {
    ('a' <= c && c <= 'z') || ('A' <= c && c <= 'Z') || ('0' <= c && c <= '9')
}

/// The maximal runs of ASCII letters and digits in `s`, in order.
pub open spec fn alnum_runs(s: Seq<char>) -> Seq<Seq<char>>
    decreases s.len(),
{
    if s.len() == 0 {
        Seq::empty()
    } else {
        let r = alnum_runs(s.drop_last());
        let c = s.last();
        if !is_ascii_alnum(c) {
            r
        } else if s.len() > 1 && is_ascii_alnum(s[s.len() - 2]) && r.len() > 0 {
            r.update(r.len() - 1, r.last().push(c))
        } else {
            r.push(seq![c])
        }
    }
}

/// The slug of a text: its lowercase's runs of ASCII letters and digits, joined by single dashes.
pub open spec fn slug(input: Seq<char>) -> Seq<char> {
    join(alnum_runs(lowercase(input)), seq!['-'])
}

pub open spec fn all_alnum_runs(r: Seq<Seq<char>>) -> bool {
    forall|a: int| 0 <= a < r.len() ==> #[trigger] r[a].len() > 0 && forall|b: int|
        0 <= b < r[a].len() ==> is_ascii_alnum(#[trigger] r[a][b])
}

proof fn lemma_runs_shape(s: Seq<char>)
    ensures
        all_alnum_runs(alnum_runs(s)),
        s.len() > 0 && is_ascii_alnum(s.last()) ==> alnum_runs(s).len() > 0 && alnum_runs(s).last().last() == s.last(),
    decreases s.len(),
{
    if s.len() > 0 {
        lemma_runs_shape(s.drop_last());
        let r = alnum_runs(s.drop_last());
        let rs = alnum_runs(s);
        assert forall|a: int| 0 <= a < rs.len() implies #[trigger] rs[a].len() > 0 && forall|b: int|
            0 <= b < rs[a].len() ==> is_ascii_alnum(#[trigger] rs[a][b]) by {
            if a < r.len() && a != rs.len() - 1 {
                assert(rs[a] == r[a]);
            }
        }
    }
}

proof fn lemma_join_last(r: Seq<Seq<char>>, sep: Seq<char>)
    requires
        r.len() > 0,
        r.last().len() > 0,
    ensures
        join(r, sep).len() > 0,
        join(r, sep).last() == r.last().last(),
{
}

proof fn lemma_join_extend_last(r: Seq<Seq<char>>, sep: Seq<char>, c: char)
    requires
        r.len() > 0,
    ensures
        join(r.update(r.len() - 1, r.last().push(c)), sep) == join(r, sep).push(c),
{
    let u = r.update(r.len() - 1, r.last().push(c));
    if r.len() > 1 {
        assert(u.drop_last() == r.drop_last());
    }
}

proof fn lemma_join_push(r: Seq<Seq<char>>, sep: Seq<char>, x: Seq<char>)
    requires
        r.len() > 0,
    ensures
        join(r.push(x), sep) == join(r, sep) + sep + x,
{
    assert(r.push(x).drop_last() == r);
}

fn is_ascii_alnum_char(c: char) -> (b: bool)
    ensures
        b == is_ascii_alnum(c),
{
    ('a' <= c && c <= 'z') || ('A' <= c && c <= 'Z') || ('0' <= c && c <= '9')
}

/// One of 'a' to 'z', '0' to '9' or '-'.
pub open spec fn is_slug_char(c: char) -> bool {
    ('a' <= c && c <= 'z') || ('0' <= c && c <= '9') || c == '-'
}

/// A slug: lowercase ASCII letters and digits in words joined by single dashes.
pub open spec fn is_slug(s: Seq<char>) -> bool {
    &&& dashed_words(s)
    &&& forall|i: int| 0 <= i < s.len() ==> is_slug_char(#[trigger] s[i])
}

pub open spec fn no_upper(s: Seq<char>) -> bool {
    forall|i: int| 0 <= i < s.len() ==> !('A' <= #[trigger] s[i] && s[i] <= 'Z')
}

proof fn lemma_runs_no_upper(s: Seq<char>)
    requires
        no_upper(s),
    ensures
        forall|a: int| 0 <= a < alnum_runs(s).len() ==> no_upper(#[trigger] alnum_runs(s)[a]),
    decreases s.len(),
{
    if s.len() > 0 {
        lemma_runs_no_upper(s.drop_last());
        let r = alnum_runs(s.drop_last());
        let rs = alnum_runs(s);
        let c = s.last();
        assert(!('A' <= c && c <= 'Z'));
        assert forall|a: int| 0 <= a < rs.len() implies no_upper(#[trigger] rs[a]) by {
            if !is_ascii_alnum(c) {
                assert(rs[a] == r[a]);
            } else if s.len() > 1 && is_ascii_alnum(s[s.len() - 2]) && r.len() > 0 {
                if a < r.len() - 1 {
                    assert(rs[a] == r[a]);
                } else {
                    assert(rs[a] == r.last().push(c));
                    assert(no_upper(r[r.len() - 1]));
                }
            } else if a < r.len() {
                assert(rs[a] == r[a]);
            } else {
                assert(rs[a] == seq![c]);
            }
        }
    }
}

proof fn lemma_join_no_upper(r: Seq<Seq<char>>)
    requires
        forall|a: int| 0 <= a < r.len() ==> no_upper(#[trigger] r[a]),
    ensures
        no_upper(join(r, seq!['-'])),
    decreases r.len(),
{
    if r.len() > 1 {
        assert forall|a: int| 0 <= a < r.drop_last().len() implies no_upper(#[trigger] r.drop_last()[a]) by {
            assert(r.drop_last()[a] == r[a]);
        }
        lemma_join_no_upper(r.drop_last());
        assert(no_upper(r.last()));
        let j = join(r, seq!['-']);
        let ja = join(r.drop_last(), seq!['-']);
        assert forall|i: int| 0 <= i < j.len() implies !('A' <= #[trigger] j[i] && j[i] <= 'Z') by {
            if i < ja.len() {
                assert(j[i] == ja[i]);
            } else if i > ja.len() {
                assert(j[i] == r.last()[i - ja.len() - 1]);
            }
        }
    } else if r.len() == 1 {
        assert(no_upper(r[0]));
    }
}

/// A nonempty prefix of a slug-shaped text is its runs joined by dashes, with the dash it ends in.
proof fn lemma_runs_of_dashed_prefix(t: Seq<char>)
    requires
        t.len() > 0,
        is_ascii_alnum(t[0]),
        forall|i: int| 0 <= i < t.len() ==> is_ascii_alnum(#[trigger] t[i]) || t[i] == '-',
        forall|i: int| 0 <= i < t.len() - 1 ==> !(#[trigger] t[i] == '-' && t[i + 1] == '-'),
    ensures
        alnum_runs(t).len() > 0,
        is_ascii_alnum(t.last()) ==> join(alnum_runs(t), seq!['-']) == t,
        !is_ascii_alnum(t.last()) ==> join(alnum_runs(t), seq!['-']) + seq!['-'] == t,
    decreases t.len(),
{
    let c = t.last();
    if t.len() == 1 {
        assert(t.drop_last().len() == 0);
        assert(alnum_runs(t) == seq![seq![c]]);
        assert(t == seq![c]);
    } else {
        let p = t.drop_last();
        assert(p[0] == t[0]);
        assert forall|i: int| 0 <= i < p.len() implies is_ascii_alnum(#[trigger] p[i]) || p[i] == '-' by {
            assert(p[i] == t[i]);
        }
        assert forall|i: int| 0 <= i < p.len() - 1 implies !(#[trigger] p[i] == '-' && p[i + 1] == '-') by {
            assert(p[i] == t[i] && p[i + 1] == t[i + 1]);
        }
        lemma_runs_of_dashed_prefix(p);
        lemma_runs_shape(p);
        let r = alnum_runs(p);
        assert(p.last() == t[t.len() - 2]);
        if !is_ascii_alnum(c) {
            assert(c == '-');
            assert(is_ascii_alnum(p.last()));
            assert(t == p.push(c));
        } else if is_ascii_alnum(p.last()) {
            lemma_join_extend_last(r, seq!['-'], c);
            assert(t == p.push(c));
        } else {
            lemma_join_push(r, seq!['-'], seq![c]);
            assert(t == p + seq![c]);
        }
    }
}

/// A slug is its own runs joined by dashes.
proof fn lemma_slug_runs(s: Seq<char>)
    requires
        is_slug(s),
    ensures
        join(alnum_runs(s), seq!['-']) == s,
{
    if s.len() > 0 {
        lemma_runs_of_dashed_prefix(s);
    } else {
        assert(alnum_runs(s).len() == 0);
    }
}

/// Lowercase, ASCII-alphanumeric-only slug with single dashes between words. The result is a
/// slug, and a slug is its own slug, so slugifying twice gives what slugifying once gave.
pub fn slugify(input: &str) -> (r: String)
    ensures
        r@ == slug(input@),
        is_slug(r@),
        is_slug(input@) ==> r@ == input@,
{
    let lowered_s = to_lowercase(input);
    let low = chars_of(lowered_s.as_str());
    proof {
        let ghost l = lowercase(input@);
        lemma_runs_shape(l);
        lemma_join_dashed(alnum_runs(l));
        lemma_runs_no_upper(l);
        lemma_join_no_upper(alnum_runs(l));
        if is_slug(input@) {
            assert forall|i: int| 0 <= i < input@.len() implies is_ascii(#[trigger] input@[i]) by {
                assert(is_slug_char(input@[i]));
            }
            assert(l =~= input@);
            lemma_slug_runs(input@);
        }
    }
    let mut out: Vec<char> = Vec::new();
    let mut last_was_dash = false;
    let n = low.len();
    for i in 0..n
        invariant
            n == low@.len(),
            all_alnum_runs(alnum_runs(low@.take(i as int))),
            last_was_dash ==> alnum_runs(low@.take(i as int)).len() > 0 && out@ == join(
                alnum_runs(low@.take(i as int)),
                seq!['-'],
            ) + seq!['-'] && i > 0 && !is_ascii_alnum(low@[i - 1]),
            !last_was_dash ==> out@ == join(alnum_runs(low@.take(i as int)), seq!['-']),
            !last_was_dash && i > 0 && !is_ascii_alnum(low@[i - 1]) ==> out@.len() == 0,
            !last_was_dash && i > 0 && is_ascii_alnum(low@[i - 1]) ==> alnum_runs(
                low@.take(i as int),
            ).len() > 0,
            i == 0 ==> out@.len() == 0,
    {
        let ghost pre = low@.take(i as int);
        let ghost post = low@.take(i + 1);
        let ghost r = alnum_runs(pre);
        proof {
            assert(post.drop_last() == pre);
            assert(post.last() == low@[i as int]);
            if i > 0 {
                assert(post[post.len() - 2] == low@[i - 1]);
            }
            lemma_runs_shape(post);
            lemma_runs_shape(pre);
        }
        let c = low[i];
        if is_ascii_alnum_char(c) {
            let ghost before = out@;
            out.push(c);
            proof {
                if i > 0 && is_ascii_alnum(low@[i - 1]) {
                    lemma_join_extend_last(r, seq!['-'], c);
                } else {
                    if last_was_dash {
                        lemma_join_push(r, seq!['-'], seq![c]);
                    } else {
                        if r.len() > 0 {
                            assert(join(r, seq!['-']).len() == 0);
                            lemma_join_last(r, seq!['-']);
                        }
                        assert(r.len() == 0);
                        assert(r.push(seq![c]) == seq![seq![c]]);
                    }
                }
            }
            last_was_dash = false;
        } else if !last_was_dash && out.len() != 0 {
            out.push('-');
            last_was_dash = true;
            proof {
                if r.len() == 0 {
                    assert(join(r, seq!['-']).len() == 0);
                }
            }
        }
    }
    assert(low@.take(n as int) == low@);
    let ghost rr = alnum_runs(low@);
    proof {
        lemma_runs_shape(low@);
    }
    if out.len() > 0 && out[out.len() - 1] == '-' {
        proof {
            if !last_was_dash {
                lemma_join_last(rr, seq!['-']);
                assert(rr.last().len() > 0);
                assert(is_ascii_alnum(rr.last().last()));
            }
        }
        out.pop();
        proof {
            assert(out@ == join(rr, seq!['-']));
        }
    } else {
        proof {
            assert(!last_was_dash);
        }
    }
    string_of(out.as_slice())
}

/// A text of ASCII letters and digits in words separated by single dashes: nothing else occurs,
/// it neither starts nor ends with a dash, and no two dashes are adjacent.
pub open spec fn dashed_words(s: Seq<char>) -> bool {
    &&& forall|i: int| 0 <= i < s.len() ==> is_ascii_alnum(#[trigger] s[i]) || s[i] == '-'
    &&& s.len() > 0 ==> is_ascii_alnum(s[0]) && is_ascii_alnum(s.last())
    &&& forall|i: int| 0 <= i < s.len() - 1 ==> !(#[trigger] s[i] == '-' && s[i + 1] == '-')
}

proof fn lemma_join_dashed(r: Seq<Seq<char>>)
    requires
        all_alnum_runs(r),
    ensures
        dashed_words(join(r, seq!['-'])),
    decreases r.len(),
{
    if r.len() == 1 {
        assert(join(r, seq!['-']) == r[0]);
        assert(r[0].len() > 0);
    } else if r.len() >= 2 {
        let a = r.drop_last();
        let l = r.last();
        assert forall|x: int| 0 <= x < a.len() implies #[trigger] a[x].len() > 0 && forall|y: int|
            0 <= y < a[x].len() ==> is_ascii_alnum(#[trigger] a[x][y]) by {
            assert(a[x] == r[x]);
        }
        lemma_join_dashed(a);
        let ja = join(a, seq!['-']);
        let j = join(r, seq!['-']);
        assert(j == ja + seq!['-'] + l);
        assert(l.len() > 0);
        assert(r[r.len() - 1] == l);
        assert(forall|y: int| 0 <= y < l.len() ==> is_ascii_alnum(l[y]));
        assert(a[0] == r[0]);
        assert(ja.len() > 0) by {
            lemma_join_first(a);
        }
        assert forall|i: int| 0 <= i < j.len() implies is_ascii_alnum(#[trigger] j[i]) || j[i] == '-' by {
            if i < ja.len() {
                assert(j[i] == ja[i]);
            } else if i > ja.len() {
                assert(j[i] == l[i - ja.len() - 1]);
            }
        }
        assert(j[0] == ja[0]);
        assert(j.last() == l.last());
        assert forall|i: int| 0 <= i < j.len() - 1 implies !(#[trigger] j[i] == '-' && j[i + 1] == '-') by {
            if i < ja.len() - 1 {
                assert(j[i] == ja[i] && j[i + 1] == ja[i + 1]);
            } else if i == ja.len() - 1 {
                assert(j[i] == ja.last());
            } else if i == ja.len() {
                assert(j[i + 1] == l[0]);
            } else {
                assert(j[i] == l[i - ja.len() - 1]);
            }
        }
    }
}

proof fn lemma_join_first(r: Seq<Seq<char>>)
    requires
        r.len() > 0,
        r[0].len() > 0,
    ensures
        join(r, seq!['-']).len() > 0,
        join(r, seq!['-'])[0] == r[0][0],
    decreases r.len(),
{
    if r.len() >= 2 {
        assert(r.drop_last()[0] == r[0]);
        lemma_join_first(r.drop_last());
    }
}

/// Every slug is made of ASCII letters and digits in words joined by single dashes.
pub proof fn slugs_are_dashed_words(input: Seq<char>)
    ensures
        dashed_words(slug(input)),
{
    lemma_runs_shape(lowercase(input));
    lemma_join_dashed(alnum_runs(lowercase(input)));
}

/// The slug of the catch-all item every category keeps for mods tied to none of its items.
pub open spec fn other_item_slug_of(category_slug: Seq<char>) -> Seq<char> {
    category_slug + "-other"@
}

/// The name of a category's catch-all item.
pub open spec fn other_item_name_of(category_name: Seq<char>) -> Seq<char> {
    "Other "@ + category_name
}

pub fn other_item_slug(category_slug: &str) -> (r: String)
    ensures
        r@ == other_item_slug_of(category_slug@),
{
    let mut out = chars_of(category_slug);
    crate::text::extend(&mut out, chars_of("-other").as_slice());
    string_of(out.as_slice())
}

pub fn other_item_name(category_name: &str) -> (r: String)
    ensures
        r@ == other_item_name_of(category_name@),
{
    let mut out = chars_of("Other ");
    crate::text::extend(&mut out, chars_of(category_name).as_slice());
    string_of(out.as_slice())
}

/// The stored slugs the definitions no longer name, in the order they were stored; the sync drops
/// each of them that no mod uses.
pub open spec fn stale_of(existing: Seq<Seq<char>>, defined: Seq<Seq<char>>) -> Seq<Seq<char>> {
    existing.filter(|e: Seq<char>| !defined.contains(e))
}

/// The stored slugs the definitions no longer name.
pub fn stale_slugs(existing: &Vec<String>, defined: &Vec<String>) -> (r: Vec<String>)
    ensures
        r@.map_values(|x: String| x@) == stale_of(
            existing@.map_values(|x: String| x@),
            defined@.map_values(|x: String| x@),
        ),
{
    let ghost ev = existing@.map_values(|x: String| x@);
    let ghost dv = defined@.map_values(|x: String| x@);
    let mut out: Vec<String> = Vec::new();
    let n = existing.len();
    for i in 0..n
        invariant
            n == existing@.len() == ev.len(),
            ev == existing@.map_values(|x: String| x@),
            dv == defined@.map_values(|x: String| x@),
            out@.map_values(|x: String| x@) == stale_of(ev.take(i as int), dv),
    {
        let e = chars_of(existing[i].as_str());
        let m = defined.len();
        let mut found = false;
        for j in 0..m
            invariant
                m == defined@.len() == dv.len(),
                dv == defined@.map_values(|x: String| x@),
                e@ == ev[i as int],
                found == exists|q: int| 0 <= q < j && dv[q] == e@,
        {
            if crate::text::eq_chars(chars_of(defined[j].as_str()).as_slice(), e.as_slice()) {
                assert(dv[j as int] == e@);
                found = true;
            }
        }
        proof {
            if dv.contains(e@) {
                let q = choose|q: int| 0 <= q < dv.len() && dv[q] == e@;
                assert(found);
            }
            assert(ev.take(i + 1).drop_last() == ev.take(i as int));
            assert(ev.take(i + 1).last() == e@);
            reveal(Seq::filter);
        }
        let ghost before = out@.map_values(|x: String| x@);
        if !found {
            out.push(string_of(e.as_slice()));
            assert(out@.map_values(|x: String| x@) == before.push(e@));
        } else {
            assert(out@.map_values(|x: String| x@) == before);
        }
    }
    assert(ev.take(n as int) == ev);
    out
}

/// The catch-all item is never among the stale items of its category: it is always defined.
pub proof fn the_catch_all_item_is_never_stale(existing: Seq<Seq<char>>, defined: Seq<Seq<char>>, category_slug: Seq<char>)
    ensures
        !stale_of(existing, defined.push(other_item_slug_of(category_slug))).contains(
            other_item_slug_of(category_slug),
        ),
{
    let o = other_item_slug_of(category_slug);
    let d = defined.push(o);
    assert(d[d.len() - 1] == o);
    assert(d.contains(o));
    let stale = stale_of(existing, d);
    if stale.contains(o) {
        let i = choose|i: int| 0 <= i < stale.len() && stale[i] == o;
        existing.lemma_filter_pred(|e: Seq<char>| !d.contains(e), i);
    }
}

} // verus!
