//! Carries a mod's in-game toggle choices across a disable/enable cycle.
//!
//! 3DMigoto saves `global persist` variables to `d3dx_user.ini`, keyed by the path of the ini that
//! declared them, such as `$\mods\robot aria\ariahumanzzz.ini\facea2 = 1`. Renaming the mod folder
//! changes that key, and 3DMigoto drops entries it no longer recognises. So the app snapshots the
//! mod's entries while it is still enabled ([`extract`]) and writes them back once it is enabled
//! again ([`merge`]).

use vstd::prelude::*;
use crate::text::{
    chars_of, copy_chars, eq_ignore_ascii_case, eq_ignore_ascii_case_chars, extend, find_chars, find_first,
    lemma_trim_idempotent, lines, lines_of, lowercase, reassemble, reassemble_chars, slice_range,
    starts_with, starts_with_chars, string_of, to_lowercase, trim, trim_chars, views,
};
use crate::paths::{join_path, join_path_chars, parent, parent_chars, strip_prefix, strip_prefix_chars};
use crate::text::{crlf, ends_cr, ends_nl, is_white_space, join, join_chars, joined_text, lemma_joined_keeps_line, lf, newline_of, no_newline, occurs_at, trim_end, trim_start};
use crate::xxmi_config::lemma_find_from_skip;
use crate::xxmi_config_laws::lemma_trim_clean;
use crate::xxmi_config::{header_at_or_before, is_header, is_header_chars};

verus! {

/// Where `d3dx_user.ini` is: beside `d3dx.ini`, one level above the Mods folder. 3DMigoto lets
/// `d3dx.ini` name another file; the app assumes the default XXMI ships.
pub open spec fn user_config_location(mods_folder: Seq<char>) -> Option<Seq<char>> {
    match parent(mods_folder) {
        Some(dir) => Some(join_path(dir, "d3dx_user.ini"@)),
        None => None,
    }
}

/// `d3dx_user.ini` sits beside `d3dx.ini`, one level above the Mods folder.
pub fn user_config_path(mods_folder: &str) -> (r: Option<String>)
    ensures
        match r {
            Some(p) => user_config_location(mods_folder@) == Some(p@),
            None => user_config_location(mods_folder@) is None,
        },
{
    match parent_chars(chars_of(mods_folder).as_slice()) {
        Some(dir) => {
            let joined = join_path_chars(dir.as_slice(), chars_of("d3dx_user.ini").as_slice());
            Some(string_of(joined.as_slice()))
        },
        None => None,
    }
}

/// The key prefix 3DMigoto derives for an ini, from its path relative to the game directory: each
/// component lowercased, joined by `\`, with a leading `\`.
pub open spec fn namespace_of(relative: Seq<Seq<char>>) -> Seq<char> {
    seq!['\\'] + join(relative.map_values(|c: Seq<char>| lowercase(c)), seq!['\\'])
}

/// The namespace of one ini file, when it lies under the game directory.
pub open spec fn ini_namespace(ini: Seq<char>, game_dir: Seq<char>) -> Option<Seq<char>> {
    match strip_prefix(ini, game_dir) {
        Some(relative) => Some(namespace_of(relative)),
        None => None,
    }
}

/// The namespaces of the mod's ini files, in their order; none when the Mods folder has no
/// parent, and an ini outside the game directory contributes none.
pub open spec fn namespaces_for(mods_folder: Seq<char>, inis: Seq<Seq<char>>) -> Seq<Seq<char>> {
    match parent(mods_folder) {
        Some(game_dir) => inis.filter_map(|ini: Seq<char>| ini_namespace(ini, game_dir)),
        None => Seq::empty(),
    }
}

/// The key prefix 3DMigoto derives for each of the mod's ini files (found on disk by the caller,
/// while the folder carries the name whose keys are wanted): the ini path relative to the game
/// directory, lowercased, backslash-separated, leading separator included.
pub fn path_namespaces(mods_folder: &str, ini_paths: &[String]) -> (r: Vec<String>)
    ensures
        r@.map_values(|s: String| s@) == namespaces_for(mods_folder@, ini_paths@.map_values(|s: String| s@)),
{
    let ghost inis = ini_paths@.map_values(|s: String| s@);
    let mut out: Vec<String> = Vec::new();
    let game_dir = match parent_chars(chars_of(mods_folder).as_slice()) {
        Some(d) => d,
        None => {
            assert(out@.map_values(|s: String| s@) == Seq::<Seq<char>>::empty());
            return out;
        },
    };
    let ghost g = game_dir@;
    let ghost f = |ini: Seq<char>| ini_namespace(ini, g);
    let n = ini_paths.len();
    for i in 0..n
        invariant
            n == inis.len(),
            inis == ini_paths@.map_values(|s: String| s@),
            g == game_dir@,
            f == (|ini: Seq<char>| ini_namespace(ini, g)),
            out@.map_values(|s: String| s@) == inis.take(i as int).filter_map(f),
    {
        proof {
            inis.lemma_filter_map_take_succ(f, i as int);
        }
        let ghost before = out@.map_values(|s: String| s@);
        let ini = chars_of(ini_paths[i].as_str());
        match strip_prefix_chars(ini.as_slice(), game_dir.as_slice()) {
            Some(rel) => {
                let ghost rv = views(rel@);
                let mut ns: Vec<char> = vec!['\\'];
                let m = rel.len();
                let mut lowered: Vec<Vec<char>> = Vec::new();
                for j in 0..m
                    invariant
                        m == rv.len(),
                        rv == views(rel@),
                        views(lowered@) == rv.take(j as int).map_values(|c: Seq<char>| lowercase(c)),
                {
                    let ghost b = views(lowered@);
                    let l = to_lowercase(string_of(rel[j].as_slice()).as_str());
                    lowered.push(chars_of(l.as_str()));
                    assert(views(lowered@) == b.push(lowercase(rv[j as int])));
                    assert(rv.take(j + 1).map_values(|c: Seq<char>| lowercase(c)) == rv.take(j as int).map_values(|c: Seq<char>| lowercase(c)).push(lowercase(rv[j as int])));
                }
                assert(rv.take(m as int) == rv);
                assert(views(lowered@) == rv.map_values(|c: Seq<char>| lowercase(c)));
                let sep = vec!['\\'];
                assert(sep@ == seq!['\\']);
                let joined = join_chars(&lowered, sep.as_slice());
                extend(&mut ns, joined.as_slice());
                assert(ns@ == namespace_of(rv));
                out.push(string_of(ns.as_slice()));
                assert(out@.map_values(|s: String| s@) == before.push(namespace_of(rv)));
            },
            None => {},
        }
    }
    assert(inis.take(n as int) == inis);
    out
}

/// A variable as `(key, value)`, each as its characters.
pub open spec fn pair_views(v: Seq<(String, String)>) -> Seq<(Seq<char>, Seq<char>)> {
    v.map_values(|p: (String, String)| (p.0@, p.1@))
}

/// The key and value of a `d3dx_user.ini` variable line: the trimmed line starts with `$`, the key
/// is what comes before the first `=` and the value what follows it, both trimmed.
pub open spec fn var_line(line: Seq<char>) -> Option<(Seq<char>, Seq<char>)> {
    let t = trim(line);
    if !starts_with(t, seq!['$']) {
        None
    } else {
        match find_first(t, seq!['=']) {
            Some(i) => Some((trim(t.take(i)), trim(t.skip(i + 1)))),
            None => None,
        }
    }
}

/// The key prefix a namespace gives its variables: `$`, the namespace, and a `\`, all lowercase.
/// The trailing separator keeps `\mods\aria` from claiming `\mods\aria robot\...`.
pub open spec fn namespace_prefix(ns: Seq<char>) -> Seq<char> {
    seq!['$'] + lowercase(ns) + seq!['\\']
}

/// Whether `key` is a variable declared by an ini under one of `namespaces`, compared in lowercase.
pub open spec fn belongs_to_namespaces(key: Seq<char>, namespaces: Seq<Seq<char>>) -> bool {
    exists|i: int| 0 <= i < namespaces.len() && starts_with(lowercase(key), namespace_prefix(#[trigger] namespaces[i]))
}

/// A line's variable, when it is one and belongs to the namespaces.
pub open spec fn owned_var(line: Seq<char>, namespaces: Seq<Seq<char>>) -> Option<(Seq<char>, Seq<char>)> {
    match var_line(line) {
        Some(kv) => if belongs_to_namespaces(kv.0, namespaces) {
            Some(kv)
        } else {
            None
        },
        None => None,
    }
}

/// Every variable line of `contents` belonging to the namespaces, in file order; nothing at all
/// when there are no namespaces.
pub open spec fn extracted(contents: Seq<char>, namespaces: Seq<Seq<char>>) -> Seq<(Seq<char>, Seq<char>)> {
    if namespaces.len() == 0 {
        Seq::empty()
    } else {
        lines(contents).filter_map(|l: Seq<char>| owned_var(l, namespaces))
    }
}

/// The line that sets a variable: `key = value`.
pub open spec fn var_assignment(kv: (Seq<char>, Seq<char>)) -> Seq<char> {
    kv.0 + " = "@ + kv.1
}

/// The first pending variable whose key equals `key` up to ASCII case.
pub open spec fn pending_position(pending: Seq<(Seq<char>, Seq<char>)>, key: Seq<char>, i: int) -> Option<int>
    decreases pending.len() - i,
{
    if i < 0 || i >= pending.len() {
        None
    } else if eq_ignore_ascii_case(pending[i].0, key) {
        Some(i)
    } else {
        pending_position(pending, key, i + 1)
    }
}

/// One line of the replacing pass: a variable line whose key is still pending is rewritten with
/// the pending value, and that variable is no longer pending.
pub open spec fn replace_one(line: Seq<char>, pending: Seq<(Seq<char>, Seq<char>)>) -> (Seq<char>, Seq<(Seq<char>, Seq<char>)>) {
    match var_line(line) {
        Some(kv) => match pending_position(pending, kv.0, 0) {
            Some(i) => (var_assignment(pending[i]), pending.remove(i)),
            None => (line, pending),
        },
        None => (line, pending),
    }
}

/// The replacing pass over all lines, front to back: the lines it leaves, and the variables still
/// pending after it.
pub open spec fn replace_pass(ls: Seq<Seq<char>>, pending: Seq<(Seq<char>, Seq<char>)>) -> (Seq<Seq<char>>, Seq<(Seq<char>, Seq<char>)>)
    decreases ls.len(),
{
    if ls.len() == 0 {
        (ls, pending)
    } else {
        let (first, rest_pending) = replace_one(ls[0], pending);
        let (rest, left) = replace_pass(ls.drop_first(), rest_pending);
        (seq![first] + rest, left)
    }
}

pub open spec fn constants_header() -> Seq<char> {
    "[Constants]"@
}

/// Whether the header governing line `k` is `[Constants]`.
pub open spec fn in_constants(ls: Seq<Seq<char>>, k: int) -> bool {
    match header_at_or_before(ls, k) {
        Some(h) => eq_ignore_ascii_case(trim(ls[h]), constants_header()),
        None => false,
    }
}

/// The last header, before line `k`, that closes a `[Constants]` section.
pub open spec fn last_constants_close(ls: Seq<Seq<char>>, k: int) -> Option<int>
    decreases k,
{
    if k <= 0 {
        None
    } else if is_header(ls[k - 1]) && in_constants(ls, k - 2) {
        Some(k - 1)
    } else {
        last_constants_close(ls, k - 1)
    }
}

/// Where new variables go: where the last closed `[Constants]` section ended, or the end of the
/// file when it ends inside `[Constants]`; `None` when there is no `[Constants]` section.
pub open spec fn insertion_point(ls: Seq<Seq<char>>) -> Option<int> {
    match last_constants_close(ls, ls.len() as int) {
        Some(at) => Some(at),
        None => if in_constants(ls, ls.len() - 1) {
            Some(ls.len() as int)
        } else {
            None
        },
    }
}

/// The lines of `contents` with the variables written in: existing lines for the same key replaced
/// in place, the rest added inside `[Constants]`, or under a new `[Constants]` at the end.
pub open spec fn merged_lines(contents: Seq<char>, vars: Seq<(Seq<char>, Seq<char>)>) -> Seq<Seq<char>> {
    let ls = lines(contents);
    let (replaced, left) = replace_pass(ls, vars);
    let added = left.map_values(|kv: (Seq<char>, Seq<char>)| var_assignment(kv));
    if left.len() == 0 {
        replaced
    } else {
        match insertion_point(ls) {
            Some(at) => replaced.take(at) + added + replaced.skip(at),
            None => replaced + seq![constants_header()] + added,
        }
    }
}

/// What [`merge`] returns: the contents unchanged when there is nothing to write, and otherwise
/// the merged lines in the file's own line-ending style.
pub open spec fn merged(contents: Seq<char>, vars: Seq<(Seq<char>, Seq<char>)>) -> Seq<char> {
    if vars.len() == 0 {
        contents
    } else {
        reassemble(contents, merged_lines(contents, vars))
    }
}

/// Splits a `d3dx_user.ini` variable line into its key and value, if it is one.
pub fn split_var_line_chars(line: &[char]) -> (r: Option<(Vec<char>, Vec<char>)>)
    ensures
        match r {
            Some(kv) => var_line(line@) == Some((kv.0@, kv.1@)),
            None => var_line(line@) is None,
        },
{
    let t = trim_chars(line);
    let dollar = vec!['$'];
    let eq = vec!['='];
    assert(dollar@ == seq!['$']);
    assert(eq@ == seq!['=']);
    if !starts_with_chars(t.as_slice(), dollar.as_slice()) {
        return None;
    }
    let len = t.len();
    match find_chars(t.as_slice(), eq.as_slice()) {
        Some(i) => {
            assert(i + 1 <= len);
            let k = slice_range(t.as_slice(), 0, i);
            let v = slice_range(t.as_slice(), i + 1, len);
            assert(k@ == t@.take(i as int));
            assert(v@ == t@.skip(i + 1));
            Some((trim_chars(k.as_slice()), trim_chars(v.as_slice())))
        },
        None => None,
    }
}

/// Whether `key` is a variable declared by an ini under one of `namespaces`.
pub fn belongs_to_chars(key: &[char], namespaces: &[String]) -> (b: bool)
    ensures
        b == belongs_to_namespaces(key@, namespaces@.map_values(|s: String| s@)),
{
    let ghost nss = namespaces@.map_values(|s: String| s@);
    let key_string = string_of(key);
    let lowered_s = to_lowercase(key_string.as_str());
    let lowered = chars_of(lowered_s.as_str());
    let n = namespaces.len();
    for i in 0..n
        invariant
            n == nss.len(),
            nss == namespaces@.map_values(|s: String| s@),
            lowered@ == lowercase(key@),
            forall|j: int| 0 <= j < i ==> !starts_with(lowercase(key@), namespace_prefix(#[trigger] nss[j])),
    {
        let ns_lower = to_lowercase(namespaces[i].as_str());
        let mut prefix = vec!['$'];
        extend(&mut prefix, chars_of(ns_lower.as_str()).as_slice());
        prefix.push('\\');
        assert(prefix@ == namespace_prefix(nss[i as int]));
        if starts_with_chars(lowered.as_slice(), prefix.as_slice()) {
            return true;
        }
    }
    false
}

/// Splits a `d3dx_user.ini` variable line into its key and value, if it is one.
pub fn split_var_line(line: &str) -> (r: Option<(String, String)>)
    ensures
        match r {
            Some(kv) => var_line(line@) == Some((kv.0@, kv.1@)),
            None => var_line(line@) is None,
        },
{
    match split_var_line_chars(chars_of(line).as_slice()) {
        Some(kv) => Some((string_of(kv.0.as_slice()), string_of(kv.1.as_slice()))),
        None => None,
    }
}

/// True when `key` is a variable declared by an ini under one of `namespaces`.
pub fn belongs_to(key: &str, namespaces: &[String]) -> (b: bool)
    ensures
        b == belongs_to_namespaces(key@, namespaces@.map_values(|s: String| s@)),
{
    belongs_to_chars(chars_of(key).as_slice(), namespaces)
}

/// Every persisted variable in `contents` belonging to the given namespaces, as `(key, value)`.
pub fn extract(contents: &str, namespaces: &[String]) -> (r: Vec<(String, String)>)
    ensures
        pair_views(r@) == extracted(contents@, namespaces@.map_values(|s: String| s@)),
{
    let ghost nss = namespaces@.map_values(|s: String| s@);
    if namespaces.len() == 0 {
        let r: Vec<(String, String)> = Vec::new();
        assert(pair_views(r@) == Seq::<(Seq<char>, Seq<char>)>::empty());
        return r;
    }
    let cs = chars_of(contents);
    let ls = lines_of(cs.as_slice());
    let ghost l = lines(contents@);
    let ghost f = |x: Seq<char>| owned_var(x, nss);
    let mut out: Vec<(String, String)> = Vec::new();
    let n = ls.len();
    for k in 0..n
        invariant
            n == l.len(),
            views(ls@) == l,
            nss == namespaces@.map_values(|s: String| s@),
            nss.len() > 0,
            f == (|x: Seq<char>| owned_var(x, nss)),
            pair_views(out@) == l.take(k as int).filter_map(f),
    {
        let ghost before = pair_views(out@);
        proof {
            l.lemma_filter_map_take_succ(f, k as int);
        }
        assert(ls[k as int]@ == l[k as int]);
        match split_var_line_chars(ls[k].as_slice()) {
            Some(kv) => {
                if belongs_to_chars(kv.0.as_slice(), namespaces) {
                    out.push((string_of(kv.0.as_slice()), string_of(kv.1.as_slice())));
                    assert(pair_views(out@) == before.push((kv.0@, kv.1@)));
                }
            },
            None => {},
        }
    }
    assert(l.take(n as int) == l);
    out
}

/// The first pending variable whose key equals `key` up to ASCII case.
fn find_pending(pending: &Vec<(Vec<char>, Vec<char>)>, key: &[char]) -> (r: Option<usize>)
    ensures
        match r {
            Some(i) => pending_position(pending_views(pending@), key@, 0) == Some(i as int) && i < pending@.len(),
            None => pending_position(pending_views(pending@), key@, 0) is None,
        },
{
    let ghost pv = pending_views(pending@);
    let n = pending.len();
    let mut i: usize = 0;
    while i < n
        invariant
            i <= n == pv.len(),
            pv == pending_views(pending@),
            pending_position(pv, key@, 0) == pending_position(pv, key@, i as int),
        decreases n - i,
    {
        if eq_ignore_ascii_case_chars(pending[i].0.as_slice(), key) {
            return Some(i);
        }
        i += 1;
    }
    None
}

/// Pending variables as `(key, value)` character sequences.
pub open spec fn pending_views(v: Seq<(Vec<char>, Vec<char>)>) -> Seq<(Seq<char>, Seq<char>)> {
    v.map_values(|p: (Vec<char>, Vec<char>)| (p.0@, p.1@))
}

/// `key = value`.
fn var_assignment_chars(key: &[char], value: &[char]) -> (r: Vec<char>)
    ensures
        r@ == var_assignment((key@, value@)),
{
    let mut out = slice_range(key, 0, key.len());
    let eq = chars_of(" = ");
    extend(&mut out, eq.as_slice());
    extend(&mut out, value);
    out
}

proof fn lemma_replace_pass_step(ls: Seq<Seq<char>>, pending: Seq<(Seq<char>, Seq<char>)>, k: int)
    requires
        0 <= k < ls.len(),
    ensures
        replace_pass(ls.skip(k), pending) == ({
            let (first, rest_pending) = replace_one(ls[k], pending);
            let (rest, left) = replace_pass(ls.skip(k + 1), rest_pending);
            (seq![first] + rest, left)
        }),
{
    assert(ls.skip(k).drop_first() == ls.skip(k + 1));
    assert(ls.skip(k)[0] == ls[k]);
}

/// Writes `vars` into `contents`, replacing any line that already sets the same key (compared up
/// to ASCII case) and adding the rest inside `[Constants]`. Line endings and all other lines are
/// kept; with no variables the contents come back unchanged.
#[verifier::rlimit(40)]
pub fn merge(contents: &str, vars: &[(String, String)]) -> (r: String)
    ensures
        r@ == merged(contents@, pair_views(vars@)),
{
    let cs = chars_of(contents);
    if vars.len() == 0 {
        return string_of(cs.as_slice());
    }
    let ghost pv0 = pair_views(vars@);
    let mut pending: Vec<(Vec<char>, Vec<char>)> = Vec::new();
    let m = vars.len();
    for i in 0..m
        invariant
            m == vars@.len(),
            pv0 == pair_views(vars@),
            pending_views(pending@) == pv0.take(i as int),
    {
        let kc = chars_of(vars[i].0.as_str());
        let vc = chars_of(vars[i].1.as_str());
        let ghost before = pending_views(pending@);
        pending.push((kc, vc));
        assert(pending_views(pending@) == before.push(pv0[i as int]));
        assert(pv0.take(i + 1) == pv0.take(i as int).push(pv0[i as int]));
    }
    assert(pv0.take(m as int) == pv0);
    let ls = lines_of(cs.as_slice());
    let ghost l = lines(contents@);
    let ghost full = replace_pass(l, pv0);
    let n = ls.len();
    let mut out: Vec<Vec<char>> = Vec::new();
    let mut in_const = false;
    let mut ends_at: Option<usize> = None;
    assert(l.skip(0) == l);
    let constants = chars_of("[Constants]");
    for k in 0..n
        invariant
            n == l.len(),
            views(ls@) == l,
            constants@ == constants_header(),
            full == replace_pass(l, pv0),
            out@.len() == k,
            views(out@) + replace_pass(l.skip(k as int), pending_views(pending@)).0 == full.0,
            replace_pass(l.skip(k as int), pending_views(pending@)).1 == full.1,
            in_const == in_constants(l, k - 1),
            match ends_at {
                Some(at) => last_constants_close(l, k as int) == Some(at as int) && at < k,
                None => last_constants_close(l, k as int) is None,
            },
    {
        let line = &ls[k];
        assert(line@ == l[k as int]);
        let t = trim_chars(line.as_slice());
        proof {
            lemma_trim_idempotent(line@);
            lemma_replace_pass_step(l, pending_views(pending@), k as int);
        }
        if is_header_chars(t.as_slice()) {
            if in_const {
                ends_at = Some(out.len());
            }
            in_const = eq_ignore_ascii_case_chars(t.as_slice(), constants.as_slice());
        }
        let ghost pv = pending_views(pending@);
        let ghost before = views(out@);
        let mut replaced = false;
        match split_var_line_chars(line.as_slice()) {
            Some(kv) => {
                match find_pending(&pending, kv.0.as_slice()) {
                    Some(index) => {
                        let (stored_key, stored_value) = pending.remove(index);
                        proof {
                            assert(pending_views(pending@) == pv.remove(index as int));
                        }
                        out.push(var_assignment_chars(stored_key.as_slice(), stored_value.as_slice()));
                        replaced = true;
                    },
                    None => {},
                }
            },
            None => {},
        }
        if !replaced {
            out.push(line.clone());
        }
        proof {
            let (first, rest_pending) = replace_one(l[k as int], pv);
            assert(pending_views(pending@) == rest_pending);
            assert(views(out@) == before.push(first));
            assert(views(out@) + replace_pass(l.skip(k + 1), rest_pending).0 == before + replace_pass(
                l.skip(k as int),
                pv,
            ).0);
        }
    }
    proof {
        assert(l.skip(n as int) == Seq::<Seq<char>>::empty());
        assert(views(out@) == full.0);
        assert(pending_views(pending@) == full.1);
    }
    if pending.len() == 0 {
        return reassemble_chars(cs.as_slice(), &out);
    }
    let at: Option<usize> = match ends_at {
        Some(a) => Some(a),
        None => if in_const {
            Some(n)
        } else {
            None
        },
    };
    let ghost added = full.1.map_values(|kv: (Seq<char>, Seq<char>)| var_assignment(kv));
    let mut new_lines: Vec<Vec<char>> = Vec::new();
    let pn = pending.len();
    for i in 0..pn
        invariant
            pn == pending@.len(),
            pending_views(pending@) == full.1,
            added == full.1.map_values(|kv: (Seq<char>, Seq<char>)| var_assignment(kv)),
            views(new_lines@) == added.take(i as int),
    {
        let ghost before = views(new_lines@);
        new_lines.push(var_assignment_chars(pending[i].0.as_slice(), pending[i].1.as_slice()));
        assert(views(new_lines@) == before.push(added[i as int]));
        assert(added.take(i + 1) == added.take(i as int).push(added[i as int]));
    }
    assert(added.take(pn as int) == added);
    let mut result: Vec<Vec<char>> = Vec::new();
    match at {
        Some(a) => {
            proof {
                assert(a <= n);
            }
            for i in 0..a
                invariant
                    a <= n == out@.len(),
                    views(result@) == views(out@).take(i as int),
            {
                let ghost before = views(result@);
                result.push(copy_chars(out[i].as_slice()));
                assert(views(result@) == before.push(views(out@)[i as int]));
                assert(views(out@).take(i + 1) == views(out@).take(i as int).push(views(out@)[i as int]));
            }
            let ghost head = views(result@);
            for i in 0..pn
                invariant
                    pn == new_lines@.len(),
                    views(result@) == head + views(new_lines@).take(i as int),
            {
                let ghost before = views(result@);
                result.push(copy_chars(new_lines[i].as_slice()));
                assert(views(result@) == before.push(views(new_lines@)[i as int]));
                assert(views(new_lines@).take(i + 1) == views(new_lines@).take(i as int).push(views(new_lines@)[i as int]));
            }
            let ghost mid = views(result@);
            let mut i = a;
            while i < n
                invariant
                    a <= i <= n == out@.len(),
                    views(result@) == mid + views(out@).subrange(a as int, i as int),
                decreases n - i,
            {
                let ghost before = views(result@);
                result.push(copy_chars(out[i].as_slice()));
                assert(views(result@) == before.push(views(out@)[i as int]));
                assert(views(out@).subrange(a as int, i + 1) == views(out@).subrange(a as int, i as int).push(views(out@)[i as int]));
                i += 1;
            }
            proof {
                assert(views(out@).take(a as int) == head);
                assert(views(new_lines@).take(pn as int) == views(new_lines@));
                assert(views(out@).subrange(a as int, n as int) == views(out@).skip(a as int));
                assert(views(result@) == full.0.take(a as int) + added + full.0.skip(a as int));
            }
        },
        None => {
            let n2 = out.len();
            for i in 0..n2
                invariant
                    n2 == out@.len(),
                    views(result@) == views(out@).take(i as int),
            {
                let ghost before = views(result@);
                result.push(copy_chars(out[i].as_slice()));
                assert(views(result@) == before.push(views(out@)[i as int]));
                assert(views(out@).take(i + 1) == views(out@).take(i as int).push(views(out@)[i as int]));
            }
            assert(views(out@).take(n2 as int) == views(out@));
            result.push(constants);
            let ghost head = views(result@);
            for i in 0..pn
                invariant
                    pn == new_lines@.len(),
                    views(result@) == head + views(new_lines@).take(i as int),
            {
                let ghost before = views(result@);
                result.push(copy_chars(new_lines[i].as_slice()));
                assert(views(result@) == before.push(views(new_lines@)[i as int]));
                assert(views(new_lines@).take(i + 1) == views(new_lines@).take(i as int).push(views(new_lines@)[i as int]));
            }
            assert(views(new_lines@).take(pn as int) == views(new_lines@));
        },
    }
    proof {
        assert(views(result@) == merged_lines(contents@, pv0));
    }
    reassemble_chars(cs.as_slice(), &result)
}

/// The replacing pass keeps one line per line, and every variable pending before it is either
/// written into one of those lines or still pending after it.
proof fn lemma_replace_pass_writes(ls: Seq<Seq<char>>, pending: Seq<(Seq<char>, Seq<char>)>, x: (Seq<char>, Seq<char>))
    ensures
        replace_pass(ls, pending).0.len() == ls.len(),
        pending.contains(x) ==> replace_pass(ls, pending).0.contains(var_assignment(x)) || replace_pass(
            ls,
            pending,
        ).1.contains(x),
    decreases ls.len(),
{
    if ls.len() > 0 {
        let (first, p1) = replace_one(ls[0], pending);
        lemma_replace_pass_writes(ls.drop_first(), p1, x);
        let (rest, left) = replace_pass(ls.drop_first(), p1);
        let out = seq![first] + rest;
        if pending.contains(x) {
            let j = choose|j: int| 0 <= j < pending.len() && pending[j] == x;
            if let Some(kv) = var_line(ls[0]) {
                if let Some(i) = pending_position(pending, kv.0, 0) {
                    lemma_pending_position_range(pending, kv.0, 0);
                    if pending[i] == x {
                        assert(out[0] == var_assignment(x));
                    } else {
                        let q = if j < i { j } else { j - 1 };
                        assert(p1[q] == x);
                    }
                }
            }
            if p1.contains(x) && !left.contains(x) {
                let r = choose|r: int| 0 <= r < rest.len() && rest[r] == var_assignment(x);
                assert(out[r + 1] == var_assignment(x));
            }
        }
    }
}

proof fn lemma_pending_position_range(pending: Seq<(Seq<char>, Seq<char>)>, key: Seq<char>, i: int)
    requires
        0 <= i,
    ensures
        pending_position(pending, key, i) matches Some(p) ==> i <= p < pending.len(),
    decreases pending.len() - i,
{
    if i < pending.len() && !eq_ignore_ascii_case(pending[i].0, key) {
        lemma_pending_position_range(pending, key, i + 1);
    }
}

proof fn lemma_constants_close_range(ls: Seq<Seq<char>>, k: int)
    requires
        k <= ls.len(),
    ensures
        last_constants_close(ls, k) matches Some(at) ==> 0 <= at < k,
    decreases k,
{
    if k > 0 && !(is_header(ls[k - 1]) && in_constants(ls, k - 2)) {
        lemma_constants_close_range(ls, k - 1);
    }
}

/// Restoring writes every variable it is given: each one's `key = value` line is among the merged
/// lines, whether it replaced a line for the same key or was added.
pub proof fn restoring_writes_every_variable(contents: Seq<char>, vars: Seq<(Seq<char>, Seq<char>)>, x: (Seq<char>, Seq<char>))
    requires
        vars.contains(x),
    ensures
        merged_lines(contents, vars).contains(var_assignment(x)),
{
    let ls = lines(contents);
    let (replaced, left) = replace_pass(ls, vars);
    lemma_replace_pass_writes(ls, vars, x);
    let added = left.map_values(|kv: (Seq<char>, Seq<char>)| var_assignment(kv));
    let m = merged_lines(contents, vars);
    if left.len() > 0 {
        lemma_constants_close_range(ls, ls.len() as int);
        if replaced.contains(var_assignment(x)) {
            let r = choose|r: int| 0 <= r < replaced.len() && replaced[r] == var_assignment(x);
            match insertion_point(ls) {
                Some(at) => {
                    if r < at {
                        assert(m[r] == var_assignment(x));
                    } else {
                        assert(m[r + added.len()] == var_assignment(x));
                    }
                },
                None => {
                    assert(m[r] == var_assignment(x));
                },
            }
        } else {
            let q = choose|q: int| 0 <= q < left.len() && left[q] == x;
            assert(added[q] == var_assignment(x));
            match insertion_point(ls) {
                Some(at) => {
                    assert(m[at + q] == var_assignment(x));
                },
                None => {
                    assert(m[replaced.len() + 1 + q] == var_assignment(x));
                },
            }
        }
    }
}

/// A variable as `d3dx_user.ini` holds it: a trimmed key that starts with `$` and holds no `=`, a
/// trimmed value, and no `'\n'` in either.
pub open spec fn well_formed_var(kv: (Seq<char>, Seq<char>)) -> bool {
    &&& trim(kv.0) == kv.0
    &&& starts_with(kv.0, seq!['$'])
    &&& !kv.0.contains('=')
    &&& trim(kv.1) == kv.1
    &&& no_newline(kv.0)
    &&& no_newline(kv.1)
}

/// The line written for a well-formed variable reads back as that variable, holds no `'\n'` and
/// does not end in `'\r'`.
proof fn lemma_var_line_reads_back(kv: (Seq<char>, Seq<char>))
    requires
        well_formed_var(kv),
    ensures
        var_line(var_assignment(kv)) == Some(kv),
        no_newline(var_assignment(kv)),
        !ends_cr(var_assignment(kv)),
        var_assignment(kv).len() > 0,
{
    reveal_strlit(" = ");
    reveal_strlit(" =");
    let k = kv.0;
    let v = kv.1;
    let l = var_assignment(kv);
    assert(k.take(1)[0] == '$');
    assert(k[0] == '$');
    lemma_trim_clean(k);
    lemma_trim_clean(v);
    let kl = k.len() as int;
    assert(l == k + " = "@ + v);
    assert forall|j: int| 0 <= j < l.len() implies l[j] != '\n' by {
        if j < kl {
            assert(l[j] == k[j]);
        } else if j < kl + 3 {
            assert(l[j] == " = "@[j - kl]);
        } else {
            assert(l[j] == v[j - kl - 3]);
        }
    }
    assert(trim_start(l) == l);
    let t = k + " ="@ + (if v.len() > 0 { seq![' '] + v } else { Seq::<char>::empty() });
    if v.len() > 0 {
        assert(l == t);
        assert(l.last() == v.last());
        assert(trim_end(l) == l);
    } else {
        assert(l.drop_last() == t);
        assert(t.last() == '=');
        assert(trim_end(t) == t);
        assert(trim_end(l) == trim_end(t));
        assert(l.last() == ' ');
    }
    assert(trim(l) == t);
    assert(t.take(1) == k.take(1));
    assert(starts_with(t, seq!['$']));
    assert forall|j: int| 0 <= j < kl + 1 implies !occurs_at(t, seq!['='], j) by {
        if occurs_at(t, seq!['='], j) {
            assert(t.subrange(j, j + 1)[0] == t[j]);
            if j < kl {
                assert(t[j] == k[j]);
                assert(k.contains('='));
            } else {
                assert(t[j] == ' ');
            }
        }
    }
    lemma_find_from_skip(t, seq!['='], 0, kl + 1);
    assert(t.subrange(kl + 1, kl + 2) == seq!['=']);
    assert(find_first(t, seq!['=']) == Some(kl + 1));
    let key_part = t.take(kl + 1);
    assert(key_part == k.push(' '));
    assert(trim_start(key_part) == key_part);
    assert(key_part.drop_last() == k);
    assert(trim_end(k) == k) by {
        crate::text::lemma_trim_end_shape(trim_start(k));
        crate::text::lemma_trim_start_shape(k);
    }
    assert(trim(key_part) == k);
    let value_part = t.skip(kl + 2);
    if v.len() > 0 {
        assert(value_part == seq![' '] + v);
        assert(value_part.drop_first() == v);
        assert(trim_start(value_part) == trim_start(v));
    } else {
        assert(value_part.len() == 0);
    }
    assert(trim(value_part) == v);
}

/// The replacing pass writes only the file's own lines and the lines of pending variables, and
/// leaves pending only variables that were pending.
proof fn lemma_replace_pass_parts(ls: Seq<Seq<char>>, pending: Seq<(Seq<char>, Seq<char>)>)
    ensures
        forall|y: Seq<char>|
            #[trigger] replace_pass(ls, pending).0.contains(y) ==> ls.contains(y) || exists|kv: (Seq<char>, Seq<char>)|
                pending.contains(kv) && y == var_assignment(kv),
        forall|kv: (Seq<char>, Seq<char>)| #[trigger] replace_pass(ls, pending).1.contains(kv) ==> pending.contains(kv),
    decreases ls.len(),
{
    if ls.len() > 0 {
        let (first, p1) = replace_one(ls[0], pending);
        lemma_replace_pass_parts(ls.drop_first(), p1);
        let (rest, left) = replace_pass(ls.drop_first(), p1);
        let out = seq![first] + rest;
        assert forall|kv: (Seq<char>, Seq<char>)| p1.contains(kv) implies pending.contains(kv) by {
            if let Some(kvl) = var_line(ls[0]) {
                if let Some(i) = pending_position(pending, kvl.0, 0) {
                    lemma_pending_position_range(pending, kvl.0, 0);
                    let q = choose|q: int| 0 <= q < p1.len() && p1[q] == kv;
                    if q < i {
                        assert(pending[q] == kv);
                    } else {
                        assert(pending[q + 1] == kv);
                    }
                }
            }
        }
        assert forall|y: Seq<char>| out.contains(y) implies ls.contains(y) || exists|kv: (Seq<char>, Seq<char>)|
            pending.contains(kv) && y == var_assignment(kv) by {
            let q = choose|q: int| 0 <= q < out.len() && out[q] == y;
            if q == 0 {
                if first == ls[0] {
                    assert(ls[0] == y);
                } else {
                    let kvl = var_line(ls[0])->0;
                    let i = pending_position(pending, kvl.0, 0)->0;
                    lemma_pending_position_range(pending, kvl.0, 0);
                    assert(pending.contains(pending[i]));
                }
            } else {
                assert(rest[q - 1] == y);
                assert(rest.contains(y));
                if ls.drop_first().contains(y) {
                    let r = choose|r: int| 0 <= r < ls.drop_first().len() && ls.drop_first()[r] == y;
                    assert(ls[r + 1] == y);
                } else {
                    let kv = choose|kv: (Seq<char>, Seq<char>)| p1.contains(kv) && y == var_assignment(kv);
                    assert(pending.contains(kv));
                }
            }
        }
    }
}

proof fn lemma_filter_map_keeps<A, B>(s: Seq<A>, f: spec_fn(A) -> Option<B>, a: A, b: B)
    requires
        s.contains(a),
        f(a) == Some(b),
    ensures
        s.filter_map(f).contains(b),
    decreases s.len(),
{
    let last = s.last();
    let rest = s.drop_last();
    if last == a {
        assert(s.filter_map(f) == rest.filter_map(f) + seq![b]);
        assert(s.filter_map(f)[rest.filter_map(f).len() as int] == b);
    } else {
        let q = choose|q: int| 0 <= q < s.len() && s[q] == a;
        assert(rest[q] == a);
        lemma_filter_map_keeps(rest, f, a, b);
        let r = choose|r: int| 0 <= r < rest.filter_map(f).len() && rest.filter_map(f)[r] == b;
        match f(last) {
            Some(x) => assert(s.filter_map(f)[r] == b),
            None => assert(s.filter_map(f)[r] == b),
        }
    }
}

/// What a restore writes reads back: after merging variables into a `d3dx_user.ini` text,
/// extracting the variables of a namespace they belong to finds each of them, whatever the file
/// held before.
pub proof fn restored_variables_read_back(
    contents: Seq<char>,
    vars: Seq<(Seq<char>, Seq<char>)>,
    namespaces: Seq<Seq<char>>,
    x: (Seq<char>, Seq<char>),
)
    requires
        vars.contains(x),
        forall|i: int| 0 <= i < vars.len() ==> well_formed_var(#[trigger] vars[i]),
        belongs_to_namespaces(x.0, namespaces),
    ensures
        extracted(merged(contents, vars), namespaces).contains(x),
{
    let ls = lines(contents);
    let ml = merged_lines(contents, vars);
    let nl = newline_of(contents);
    let (replaced, left) = replace_pass(ls, vars);
    restoring_writes_every_variable(contents, vars, x);
    lemma_var_line_reads_back(x);
    lemma_replace_pass_parts(ls, vars);
    crate::text::lemma_lines_have_no_newline(contents);
    reveal_strlit("[Constants]");
    assert forall|j: int| 0 <= j < ml.len() implies no_newline(#[trigger] ml[j]) by {
        let y = ml[j];
        assert(ml.contains(y));
        let added = left.map_values(|kv: (Seq<char>, Seq<char>)| var_assignment(kv));
        let in_added = added.contains(y);
        if y == constants_header() {
        } else if in_added {
            let q = choose|q: int| 0 <= q < added.len() && added[q] == y;
            assert(left.contains(left[q]));
            assert(vars.contains(left[q]));
            let r = choose|r: int| 0 <= r < vars.len() && vars[r] == left[q];
            lemma_var_line_reads_back(vars[r]);
        } else {
            assert(replaced.contains(y)) by {
                lemma_constants_close_range(ls, ls.len() as int);
                if left.len() > 0 {
                    match insertion_point(ls) {
                        Some(at) => {
                            lemma_replace_pass_writes(ls, vars, x);
                            assert(0 <= at <= replaced.len());
                            assert(ml == replaced.take(at) + added + replaced.skip(at));
                            if j < at {
                                assert(ml[j] == replaced.take(at)[j]);
                                assert(y == replaced[j]);
                            } else if j >= at + added.len() {
                                assert(ml[j] == replaced.skip(at)[j - at - added.len()]);
                                assert(y == replaced[j - added.len()]);
                            } else {
                                assert(added[j - at] == y);
                            }
                        },
                        None => {
                            if j < replaced.len() {
                                assert(y == replaced[j]);
                            } else if j == replaced.len() {
                                assert(y == constants_header());
                            } else {
                                assert(added[j - replaced.len() - 1] == y);
                            }
                        },
                    }
                } else {
                    assert(y == replaced[j]);
                }
            }
            if ls.contains(y) {
                let r = choose|r: int| 0 <= r < ls.len() && ls[r] == y;
                assert forall|c: int| 0 <= c < y.len() implies y[c] != '\n' by {
                    assert(lines(contents)[r][c] != '\n');
                }
            } else {
                let kv = choose|kv: (Seq<char>, Seq<char>)| vars.contains(kv) && y == var_assignment(kv);
                let r = choose|r: int| 0 <= r < vars.len() && vars[r] == kv;
                lemma_var_line_reads_back(vars[r]);
            }
        }
    }
    let i = choose|i: int| 0 <= i < ml.len() && ml[i] == var_assignment(x);
    lemma_joined_keeps_line(ml, nl, ends_nl(contents), i);
    assert(merged(contents, vars) == joined_text(ml, nl, ends_nl(contents)));
    let c2 = merged(contents, vars);
    assert(owned_var(var_assignment(x), namespaces) == Some(x));
    assert(namespaces.len() > 0);
    lemma_filter_map_keeps(lines(c2), |l: Seq<char>| owned_var(l, namespaces), var_assignment(x), x);
}

} // verus!
