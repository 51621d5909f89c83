//! Reads the keybinds a mod declares: `key = value` lines inside every `[Key...]` section of its
//! INI files. A section counts wherever it sits in the file; a commented-out `;[KeySwap]` does not
//! start with `[`, so it is never read.

use vstd::prelude::*;
use crate::text::{
    chars_of, contains_chars, contains_seq, find_chars, find_first, lemma_trim_idempotent, lines,
    lines_of, lowercase, slice_range, starts_with, starts_with_chars, string_of, to_lowercase, trim,
    trim_chars, views,
};
use crate::xxmi_config::{header_at_or_before, is_header, is_header_chars};

verus! {

/// One keybind: the section it is declared in and the key it is bound to.
#[derive(Clone, Debug, PartialEq, Eq)]
pub struct KeybindInfo {
    pub title: String,
    pub key: String,
}

impl KeybindInfo {
    pub open spec fn view(&self) -> (Seq<char>, Seq<char>) {
        (self.title@, self.key@)
    }
}

pub open spec fn keybind_views(v: Seq<KeybindInfo>) -> Seq<(Seq<char>, Seq<char>)> {
    v.map_values(|k: KeybindInfo| k.view())
}

/// `key`, the start that marks keybind sections and keybind lines.
pub open spec fn key_word() -> Seq<char> {
    "key"@
}

/// The name inside a header: what lies between the brackets, trimmed.
pub open spec fn section_name(line: Seq<char>) -> Seq<char> {
    let t = trim(line);
    trim(t.subrange(1, t.len() - 1))
}

/// Whether a section name marks a keybind section: its lowercase starts with `key`.
pub open spec fn is_key_section(name: Seq<char>) -> bool {
    starts_with(lowercase(name), key_word())
}

/// The keybind section governing line `k`, by name, if the governing header is one.
pub open spec fn key_section_at(ls: Seq<Seq<char>>, k: int) -> Option<Seq<char>> {
    match header_at_or_before(ls, k) {
        Some(h) => if is_key_section(section_name(ls[h])) {
            Some(section_name(ls[h]))
        } else {
            None
        },
        None => None,
    }
}

/// The bound key on a line: what follows its first `=`, trimmed.
pub open spec fn bound_value(trimmed: Seq<char>) -> Seq<char> {
    match find_first(trimmed, seq!['=']) {
        Some(i) => trim(trimmed.skip(i + 1)),
        None => Seq::empty(),
    }
}

/// The keybind line `k` declares: a non-header line inside a keybind section whose lowercase
/// starts with `key`, that holds a `=`, and whose value is not empty.
pub open spec fn keybind_at(ls: Seq<Seq<char>>, k: int) -> Option<(Seq<char>, Seq<char>)> {
    let t = trim(ls[k]);
    if is_header(ls[k]) {
        None
    } else {
        match key_section_at(ls, k - 1) {
            Some(title) => if starts_with(lowercase(t), key_word()) && contains_seq(t, seq!['='])
                && bound_value(t).len() > 0 {
                Some((title, bound_value(t)))
            } else {
                None
            },
            None => None,
        }
    }
}

/// The keybinds declared by the first `k` lines, in file order.
pub open spec fn keybinds_upto(ls: Seq<Seq<char>>, k: int) -> Seq<(Seq<char>, Seq<char>)>
    decreases k,
{
    if k <= 0 {
        Seq::empty()
    } else {
        let before = keybinds_upto(ls, k - 1);
        match keybind_at(ls, k - 1) {
            Some(kb) => before.push(kb),
            None => before,
        }
    }
}

/// Every keybind an INI file's content declares, in file order.
pub open spec fn parsed_keybinds(content: Seq<char>) -> Seq<(Seq<char>, Seq<char>)> {
    let ls = lines(content);
    keybinds_upto(ls, ls.len() as int)
}

fn lowercase_chars(v: &[char]) -> (r: Vec<char>)
    ensures
        r@ == lowercase(v@),
{
    let s = string_of(v);
    let l = to_lowercase(s.as_str());
    chars_of(l.as_str())
}

/// Parses a single INI file's content for keybinds: the `key = value` lines inside every
/// `[Key...]` section.
pub fn parse_keybinds_from_ini(content: &str) -> (r: Vec<KeybindInfo>)
    ensures
        keybind_views(r@) == parsed_keybinds(content@),
{
    let cs = chars_of(content);
    let ls = lines_of(cs.as_slice());
    let ghost l = lines(content@);
    let key_w = chars_of("key");
    let eq = vec!['='];
    assert(eq@ == seq!['=']);
    let mut current: Option<Vec<char>> = None;
    let mut out: Vec<KeybindInfo> = Vec::new();
    let n = ls.len();
    for k in 0..n
        invariant
            n == l.len(),
            views(ls@) == l,
            key_w@ == key_word(),
            eq@ == seq!['='],
            match current {
                Some(t) => key_section_at(l, k - 1) == Some(t@),
                None => key_section_at(l, k - 1) is None,
            },
            keybind_views(out@) == keybinds_upto(l, k as int),
    {
        let ghost before = keybind_views(out@);
        let line = &ls[k];
        assert(line@ == l[k as int]);
        let t = trim_chars(line.as_slice());
        proof {
            lemma_trim_idempotent(line@);
        }
        if is_header_chars(t.as_slice()) {
            assert(t@.len() >= 2) by {
                assert(trim(t@) == t@);
                assert(t@.take(1) == seq!['[']);
                assert(t@.skip(t@.len() - 1) == seq![']']);
                assert(t@[0] == t@.take(1)[0]);
                assert(t@[t@.len() - 1] == t@.skip(t@.len() - 1)[0]);
            }
            let inner = slice_range(t.as_slice(), 1, t.len() - 1);
            let name = trim_chars(inner.as_slice());
            let lowered = lowercase_chars(name.as_slice());
            if starts_with_chars(lowered.as_slice(), key_w.as_slice()) {
                current = Some(name);
            } else {
                current = None;
            }
        } else {
            match &current {
                Some(title) => {
                    let lowered = lowercase_chars(t.as_slice());
                    if starts_with_chars(lowered.as_slice(), key_w.as_slice()) && contains_chars(
                        t.as_slice(),
                        eq.as_slice(),
                    ) {
                        let len = t.len();
                        match find_chars(t.as_slice(), eq.as_slice()) {
                            Some(i) => {
                                assert(i + 1 <= len);
                                let rest = slice_range(t.as_slice(), i + 1, len);
                                assert(rest@ == t@.skip(i + 1));
                                let value = trim_chars(rest.as_slice());
                                if value.len() > 0 {
                                    out.push(
                                        KeybindInfo {
                                            title: string_of(title.as_slice()),
                                            key: string_of(value.as_slice()),
                                        },
                                    );
                                    assert(keybind_views(out@) == before.push(
                                        (title@, value@),
                                    ));
                                }
                            },
                            None => {},
                        }
                    }
                },
                None => {},
            }
        }
    }
    out
}

/// `known` with each of `found` added, in order, unless an equal keybind is already there.
pub open spec fn with_new(known: Seq<(Seq<char>, Seq<char>)>, found: Seq<(Seq<char>, Seq<char>)>) -> Seq<(Seq<char>, Seq<char>)>
    decreases found.len(),
{
    if found.len() == 0 {
        known
    } else {
        let before = with_new(known, found.drop_last());
        if before.contains(found.last()) {
            before
        } else {
            before.push(found.last())
        }
    }
}

fn same_keybind(a: &KeybindInfo, b: &KeybindInfo) -> (r: bool)
    ensures
        r == (a.view() == b.view()),
{
    crate::text::eq_chars(chars_of(a.title.as_str()).as_slice(), chars_of(b.title.as_str()).as_slice())
        && crate::text::eq_chars(chars_of(a.key.as_str()).as_slice(), chars_of(b.key.as_str()).as_slice())
}

/// The keybinds of a mod gathered file by file: each keybind of `found` is added to `known`, in
/// order, unless an equal one (same section and key) is already there.
pub fn add_new_keybinds(known: Vec<KeybindInfo>, found: Vec<KeybindInfo>) -> (r: Vec<KeybindInfo>)
    ensures
        keybind_views(r@) == with_new(keybind_views(known@), keybind_views(found@)),
{
    let ghost kv = keybind_views(known@);
    let ghost fv = keybind_views(found@);
    let mut out = known;
    let mut rest = found;
    let mut i: usize = 0;
    let n = rest.len();
    while i < n
        invariant
            n == fv.len(),
            i <= n,
            keybind_views(rest@) == fv.skip(i as int),
            keybind_views(out@) == with_new(kv, fv.take(i as int)),
        decreases n - i,
    {
        let ghost before = keybind_views(out@);
        let ghost old_rest = rest@;
        assert(keybind_views(old_rest).len() == old_rest.len());
        assert(keybind_views(old_rest)[0] == old_rest[0].view());
        let k = rest.remove(0);
        assert(k == old_rest[0]);
        assert(k.view() == fv[i as int]);
        assert(rest@ == old_rest.drop_first());
        assert(keybind_views(rest@) =~= keybind_views(old_rest).drop_first());
        assert(fv.skip(i + 1) =~= fv.skip(i as int).drop_first());
        assert(keybind_views(rest@) == fv.skip(i + 1));
        let m = out.len();
        let mut present = false;
        for j in 0..m
            invariant
                m == out@.len(),
                before == keybind_views(out@),
                present == exists|q: int| 0 <= q < j && before[q] == k.view(),
        {
            assert(before[j as int] == out@[j as int].view());
            if same_keybind(&out[j], &k) {
                present = true;
            }
        }
        assert(fv.take(i + 1).drop_last() == fv.take(i as int));
        assert(fv.take(i + 1).last() == fv[i as int]);
        if !present {
            out.push(k);
            assert(keybind_views(out@) == before.push(fv[i as int]));
        } else {
            assert(before.contains(fv[i as int]));
        }
        i += 1;
    }
    assert(fv.take(n as int) == fv);
    out
}

/// No keybind occurs twice.
pub open spec fn no_repeats(v: Seq<(Seq<char>, Seq<char>)>) -> bool {
    forall|a: int, b: int| 0 <= a < b < v.len() ==> v[a] != v[b]
}

/// Gathering keybinds never repeats one, and keeps every keybind it was given.
pub proof fn gathering_keybinds_repeats_none(known: Seq<(Seq<char>, Seq<char>)>, found: Seq<(Seq<char>, Seq<char>)>)
    requires
        no_repeats(known),
    ensures
        no_repeats(with_new(known, found)),
        forall|x: (Seq<char>, Seq<char>)| known.contains(x) || found.contains(x) ==> #[trigger] with_new(known, found).contains(x),
    decreases found.len(),
{
    if found.len() > 0 {
        gathering_keybinds_repeats_none(known, found.drop_last());
        let before = with_new(known, found.drop_last());
        assert forall|x: (Seq<char>, Seq<char>)| known.contains(x) || found.contains(x) implies #[trigger] with_new(known, found).contains(x) by {
            if found.contains(x) && !known.contains(x) {
                let q = choose|q: int| 0 <= q < found.len() && found[q] == x;
                if q < found.len() - 1 {
                    assert(found.drop_last()[q] == x);
                    assert(found.drop_last().contains(x));
                }
            }
            if before.contains(x) && !before.contains(found.last()) {
                let q = choose|q: int| 0 <= q < before.len() && before[q] == x;
                assert(before.push(found.last())[q] == x);
            }
            if x == found.last() && !before.contains(x) {
                assert(before.push(x)[before.len() as int] == x);
            }
        }
    }
}

} // verus!
