//! Deciding which folders of a Mods library are mods and which only organise them.
//!
//! The walk over the disk and the database updates happen outside the library. Decided here: which
//! folders are part of the layout, which folder a found mod arrived in as a pack, how far the
//! search for a mod's own folder may climb, how a `DISABLED` folder is respelled and what name a
//! found mod is recorded under, what grouping does with a pack, and what the scan reports.

use vstd::prelude::*;
use crate::paths::{
    file_name, file_name_chars, join_path, join_path_chars, parent, parent_chars, segments,
    segments_chars, strip_prefix, strip_prefix_chars,
};
use crate::text::{
    chars_of, copy_chars, decimal, decimal_usize, eq_chars, extend, join, join_chars, lowercase,
    slice_range, starts_with, starts_with_chars, string_of, to_lowercase, views,
};
use crate::archive::{forward_slashes, forward_slashes_chars, opt_view};

verus! {

/// Top-level folders that organise the library rather than being a mod: the layout this app
/// writes (`agents`, `misc`, `ui`, `bangboos`) and the folders of older layouts that still exist
/// in installed libraries.
pub open spec fn structural_top_level() -> Seq<Seq<char>> {
    seq![
        "agents"@,
        "misc"@,
        "ui"@,
        "bangboos"@,
        "npcs"@,
        "enemies"@,
        "weapons"@,
        "objects"@,
        "_uncategorized"@,
    ]
}

fn structural_top_level_exec() -> (r: Vec<&'static str>)
    ensures
        r@.map_values(|s: &str| s@) == structural_top_level(),
{
    let r = vec![
        "agents",
        "misc",
        "ui",
        "bangboos",
        "npcs",
        "enemies",
        "weapons",
        "objects",
        "_uncategorized",
    ];
    assert(r@.map_values(|s: &str| s@) == structural_top_level());
    r
}

/// The components of a relative path, each in lowercase.
pub open spec fn lowered_parts(relative: Seq<char>) -> Seq<Seq<char>> {
    segments(relative).map_values(|c: Seq<char>| lowercase(c))
}

/// Whether a folder (by its path relative to the Mods folder) exists to organise mods: the
/// per-agent level `agents/<slug>`, or a single top-level folder that is a layout folder, a
/// category folder, or an agent's folder from the layout before `agents/`. Whether the single name
/// is a category or an agent slug comes from the deduction maps the caller holds.
pub open spec fn structural(relative: Seq<char>, name_is_category: bool, name_is_agent: bool) -> bool {
    let parts = lowered_parts(relative);
    if parts.len() == 2 {
        parts[0] == "agents"@
    } else if parts.len() == 1 {
        structural_top_level().contains(parts[0]) || name_is_category || name_is_agent
    } else {
        false
    }
}

/// A lone top-level folder named like a layout folder, in any case, is part of the layout,
/// whatever the deduction maps say of the name: the folders this app writes (`agents`, `misc`,
/// `ui`, `bangboos`) and those older layouts left behind (`npcs`, `enemies`, `weapons`,
/// `objects`, `_uncategorized`).
pub proof fn layout_folders_are_structural(relative: Seq<char>, name_is_category: bool, name_is_agent: bool)
    requires
        lowered_parts(relative).len() == 1,
        seq![
            "agents"@,
            "misc"@,
            "ui"@,
            "bangboos"@,
            "npcs"@,
            "enemies"@,
            "weapons"@,
            "objects"@,
            "_uncategorized"@,
        ].contains(lowered_parts(relative)[0]),
    ensures
        structural(relative, name_is_category, name_is_agent),
{
}

/// A lone top-level folder with any other name, that the deduction maps know as neither a category
/// nor an agent, is no layout folder; nor is any folder three or more levels down.
pub proof fn other_folders_are_not_structural(relative: Seq<char>, name_is_category: bool, name_is_agent: bool)
    requires
        lowered_parts(relative).len() == 1 ==> !seq![
            "agents"@,
            "misc"@,
            "ui"@,
            "bangboos"@,
            "npcs"@,
            "enemies"@,
            "weapons"@,
            "objects"@,
            "_uncategorized"@,
        ].contains(lowered_parts(relative)[0]) && !name_is_category && !name_is_agent,
        lowered_parts(relative).len() != 2,
    ensures
        !structural(relative, name_is_category, name_is_agent),
{
}

/// Two levels down, exactly the folders inside `agents` (in any case) are part of the layout.
pub proof fn agent_folders_are_structural(relative: Seq<char>, name_is_category: bool, name_is_agent: bool)
    requires
        lowered_parts(relative).len() == 2,
    ensures
        structural(relative, name_is_category, name_is_agent) == (lowered_parts(relative)[0] == "agents"@),
{
}

fn lowered_parts_exec(relative: &str) -> (r: Vec<Vec<char>>)
    ensures
        views(r@) == lowered_parts(relative@),
{
    let segs = segments_chars(chars_of(relative).as_slice());
    let ghost sv = views(segs@);
    let mut out: Vec<Vec<char>> = Vec::new();
    let n = segs.len();
    for i in 0..n
        invariant
            n == sv.len(),
            sv == views(segs@),
            sv == segments(relative@),
            views(out@) == sv.take(i as int).map_values(|c: Seq<char>| lowercase(c)),
    {
        let ghost before = views(out@);
        let l = to_lowercase(string_of(segs[i].as_slice()).as_str());
        out.push(chars_of(l.as_str()));
        assert(views(out@) == before.push(lowercase(sv[i as int])));
        assert(sv.take(i + 1).map_values(|c: Seq<char>| lowercase(c)) == sv.take(i as int).map_values(
            |c: Seq<char>| lowercase(c),
        ).push(lowercase(sv[i as int])));
    }
    assert(sv.take(n as int) == sv);
    out
}

/// Whether `relative` is a folder that exists to organise mods, not to be one.
pub fn is_structural_folder(relative: &str, name_is_category: bool, name_is_agent: bool) -> (b: bool)
    ensures
        b == structural(relative@, name_is_category, name_is_agent),
{
    let parts = lowered_parts_exec(relative);
    let ghost pv = views(parts@);
    if parts.len() == 2 {
        eq_chars(parts[0].as_slice(), chars_of("agents").as_slice())
    } else if parts.len() == 1 {
        let top = structural_top_level_exec();
        let ghost tv = top@.map_values(|s: &str| s@);
        let m = top.len();
        for i in 0..m
            invariant
                m == tv.len(),
                tv == structural_top_level(),
                tv == top@.map_values(|s: &str| s@),
                pv == views(parts@),
                pv == lowered_parts(relative@),
                pv.len() == 1,
                forall|j: int| 0 <= j < i ==> tv[j] != pv[0],
        {
            if eq_chars(chars_of(top[i]).as_slice(), parts[0].as_slice()) {
                assert(tv[i as int] == pv[0]);
                assert(structural_top_level().contains(pv[0]));
                return true;
            }
        }
        assert(!structural_top_level().contains(pv[0]));
        name_is_category || name_is_agent
    } else {
        false
    }
}

/// The folder a mod arrived inside, when that folder is a pack rather than part of the layout: the
/// parent of its relative path, with `/` separators, unless that parent is empty or structural.
pub open spec fn pack_folder(folder_name: Seq<char>, parent_is_category: bool, parent_is_agent: bool) -> Option<Seq<char>> {
    match parent(folder_name) {
        Some(p) => if p.len() == 0 || structural(p, parent_is_category, parent_is_agent) {
            None
        } else {
            Some(p.map_values(|c: char| if c == '\\' { '/' } else { c }))
        },
        None => None,
    }
}

/// The folder a mod arrived inside, when that folder is a pack. The flags tell whether the parent's
/// single name is a category or an agent slug.
pub fn pack_folder_of(folder_name: &str, parent_is_category: bool, parent_is_agent: bool) -> (r: Option<String>)
    ensures
        match r {
            Some(p) => pack_folder(folder_name@, parent_is_category, parent_is_agent) == Some(p@),
            None => pack_folder(folder_name@, parent_is_category, parent_is_agent) is None,
        },
{
    let p = match parent_chars(chars_of(folder_name).as_slice()) {
        Some(p) => p,
        None => return None,
    };
    let ps = string_of(p.as_slice());
    if p.len() == 0 || is_structural_folder(ps.as_str(), parent_is_category, parent_is_agent) {
        return None;
    }
    let mut out: Vec<char> = Vec::new();
    let n = p.len();
    for i in 0..n
        invariant
            n == p@.len(),
            out@ == p@.take(i as int).map_values(|c: char| if c == '\\' { '/' } else { c }),
    {
        let c = p[i];
        out.push(if c == '\\' { '/' } else { c });
        assert(p@.take(i + 1).map_values(|c: char| if c == '\\' { '/' } else { c }) == p@.take(i as int).map_values(|c: char| if c == '\\' { '/' } else { c }).push(if c == '\\' { '/' } else { c }));
    }
    assert(p@.take(n as int) == p@);
    Some(string_of(out.as_slice()))
}

/// The next folder the search for a mod's own folder may look at, climbing from `root`: its parent
/// with the parent's path relative to the Mods folder (components joined by `\`). `None` stops the
/// climb: no parent, the parent is the Mods folder itself, or the parent lies outside it.
pub open spec fn climb_candidate(root: Seq<char>, base: Seq<char>) -> Option<(Seq<char>, Seq<char>)> {
    match parent(root) {
        Some(p) => if segments(p) == segments(base) {
            None
        } else {
            match strip_prefix(p, base) {
                Some(rel) => Some((p, join(rel, seq!['\\']))),
                None => None,
            }
        },
        None => None,
    }
}

/// One step of the climb from the folder an `.ini` was found in towards the folder that carries
/// the mod's name. The caller stops when this is `None`, or when the candidate is structural or
/// holds more than a single mod; otherwise the candidate becomes the new root.
pub fn next_climb(root: &str, base: &str) -> (r: Option<(String, String)>)
    ensures
        match r {
            Some((p, rel)) => climb_candidate(root@, base@) == Some((p@, rel@)),
            None => climb_candidate(root@, base@) is None,
        },
{
    let p = match parent_chars(chars_of(root).as_slice()) {
        Some(p) => p,
        None => return None,
    };
    let b = chars_of(base);
    let ps = segments_chars(p.as_slice());
    let bs = segments_chars(b.as_slice());
    if segs_equal(&ps, &bs) {
        return None;
    }
    match strip_prefix_chars(p.as_slice(), b.as_slice()) {
        Some(rel) => {
            let sep = vec!['\\'];
            assert(sep@ == seq!['\\']);
            let joined = join_chars(&rel, sep.as_slice());
            Some((string_of(p.as_slice()), string_of(joined.as_slice())))
        },
        None => None,
    }
}

fn segs_equal(a: &Vec<Vec<char>>, b: &Vec<Vec<char>>) -> (r: bool)
    ensures
        r == (views(a@) == views(b@)),
{
    if a.len() != b.len() {
        assert(views(a@).len() != views(b@).len());
        return false;
    }
    let n = a.len();
    for i in 0..n
        invariant
            n == a@.len() == b@.len(),
            forall|j: int| 0 <= j < i ==> views(a@)[j] == views(b@)[j],
    {
        if !eq_chars(a[i].as_slice(), b[i].as_slice()) {
            assert(views(a@)[i as int] != views(b@)[i as int]);
            return false;
        }
    }
    assert(views(a@) == views(b@));
    true
}

/// The prefix of a disabled mod's folder name. 3DMigoto skips folders whose name starts with
/// `DISABLED`; the app writes this spelling.
pub open spec fn disabled_prefix() -> Seq<char> {
    "DISABLED_"@
}

/// A folder name spelled `DISABLED...` without the underscore, respelled `DISABLED_...`; `None`
/// for any other name, which the walk leaves as it is.
pub open spec fn fixed_disabled(name: Seq<char>) -> Option<Seq<char>> {
    if starts_with(name, "DISABLED"@) && !starts_with(name, disabled_prefix()) {
        Some(disabled_prefix() + name.skip(8))
    } else {
        None
    }
}

/// The name a folder spelled `DISABLED` without the underscore is renamed to before the walk
/// classifies it, so the rest of the scan works from one spelling.
pub fn fixed_disabled_name(name: &str) -> (r: Option<String>)
    ensures
        match r {
            Some(n) => fixed_disabled(name@) == Some(n@),
            None => fixed_disabled(name@) is None,
        },
{
    proof {
        reveal_strlit("DISABLED");
        reveal_strlit("DISABLED_");
    }
    let c = chars_of(name);
    let bare = chars_of("DISABLED");
    let full = chars_of("DISABLED_");
    if starts_with_chars(c.as_slice(), bare.as_slice()) && !starts_with_chars(c.as_slice(), full.as_slice()) {
        let mut out = copy_chars(full.as_slice());
        let rest = slice_range(c.as_slice(), 8, c.len());
        assert(rest@ == name@.skip(8));
        extend(&mut out, rest.as_slice());
        Some(string_of(out.as_slice()))
    } else {
        None
    }
}

/// Respelling settles in one step: the new name starts with `DISABLED_`, so it is never respelled
/// again, and it keeps everything after `DISABLED`.
pub proof fn respelling_a_disabled_name_settles(name: Seq<char>)
    ensures
        fixed_disabled(name) matches Some(n) ==> starts_with(n, disabled_prefix()) && fixed_disabled(n)
            is None && n.skip(9) == name.skip(8),
{
    reveal_strlit("DISABLED");
    reveal_strlit("DISABLED_");
    if let Some(n) = fixed_disabled(name) {
        assert(n.take(9) == disabled_prefix());
        assert(n.skip(9) == name.skip(8));
    }
}

/// `name` without a leading `DISABLED_`.
pub open spec fn enabled_name(name: Seq<char>) -> Seq<char> {
    if starts_with(name, disabled_prefix()) {
        name.skip(9)
    } else {
        name
    }
}

/// The name the database keys a mod by: its path relative to the Mods folder, the last component
/// without a `DISABLED_` prefix, with `/` between components; so an enabled and a disabled mod are
/// the same record.
pub open spec fn recorded_name(relative: Seq<char>) -> Seq<char> {
    let name = match file_name(relative) {
        Some(n) => n,
        None => Seq::empty(),
    };
    let clean = enabled_name(name);
    match parent(relative) {
        Some(p) => if p.len() > 0 {
            forward_slashes(join_path(p, clean))
        } else {
            forward_slashes(clean)
        },
        None => forward_slashes(clean),
    }
}

/// The name the database keys a found mod by, from its path relative to the Mods folder.
pub fn recorded_folder_name(relative: &str) -> (r: String)
    ensures
        r@ == recorded_name(relative@),
{
    proof {
        reveal_strlit("DISABLED_");
    }
    let c = chars_of(relative);
    let name = match file_name_chars(c.as_slice()) {
        Some(n) => n,
        None => Vec::new(),
    };
    let prefix = chars_of("DISABLED_");
    let clean = if starts_with_chars(name.as_slice(), prefix.as_slice()) {
        let r = slice_range(name.as_slice(), 9, name.len());
        assert(r@ == name@.skip(9));
        r
    } else {
        name
    };
    let joined = match parent_chars(c.as_slice()) {
        Some(p) => if p.len() > 0 {
            join_path_chars(p.as_slice(), clean.as_slice())
        } else {
            clean
        },
        None => clean,
    };
    string_of(forward_slashes_chars(joined.as_slice()).as_slice())
}

/// The name a pack's group gets: the last component of the pack's `/`-separated path.
pub open spec fn pack_group_name_of(pack_path: Seq<char>) -> Seq<char> {
    match last_slash(pack_path) {
        Some(i) => pack_path.skip(i + 1),
        None => pack_path,
    }
}

/// The index of the last `/` in `s`.
pub open spec fn last_slash(s: Seq<char>) -> Option<int>
    decreases s.len(),
{
    if s.len() == 0 {
        None
    } else if s.last() == '/' {
        Some(s.len() - 1)
    } else {
        last_slash(s.drop_last())
    }
}

/// The name a pack's group gets, from the pack's folder path.
pub fn pack_group_name(pack_path: &str) -> (r: String)
    ensures
        r@ == pack_group_name_of(pack_path@),
{
    let c = chars_of(pack_path);
    let mut k = c.len();
    assert(c@.take(c@.len() as int) == c@);
    while k > 0 && c[k - 1] != '/'
        invariant
            k <= c@.len(),
            c@ == pack_path@,
            last_slash(c@) == last_slash(c@.take(k as int)),
        decreases k,
    {
        assert(c@.take(k as int).drop_last() == c@.take(k - 1));
        k -= 1;
    }
    if k == 0 {
        assert(c@.take(0) == Seq::<char>::empty());
        return string_of(c.as_slice());
    }
    assert(c@.take(k as int).last() == '/');
    let rest = slice_range(c.as_slice(), k, c.len());
    string_of(rest.as_slice())
}

/// What grouping does with a pack, given how many of its mods are in no group yet and whether a
/// group of the pack's name exists: nothing when no mod is free; the free mods join the existing
/// group; otherwise a new group is made, but only for two or more, since a group of one says
/// nothing the mod does not say by itself.
#[derive(Clone, Copy, Debug, PartialEq, Eq)]
pub enum PackAction {
    Skip,
    Join(i64),
    Create,
}

pub fn pack_action(free: usize, existing_group: Option<i64>) -> (r: PackAction)
    ensures
        r == (if free == 0 {
            PackAction::Skip
        } else {
            match existing_group {
                Some(g) => PackAction::Join(g),
                None => if free < 2 {
                    PackAction::Skip
                } else {
                    PackAction::Create
                },
            }
        }),
{
    if free == 0 {
        return PackAction::Skip;
    }
    match existing_group {
        Some(g) => PackAction::Join(g),
        None => if free < 2 {
            PackAction::Skip
        } else {
            PackAction::Create
        },
    }
}

/// What a scan did, as its summary reports it.
#[derive(Clone, Copy, Debug, PartialEq, Eq)]
pub struct ScanCounts {
    pub processed: usize,
    pub added: usize,
    pub remapped: usize,
    pub moved: usize,
    pub grouped: usize,
    pub pruned: usize,
    pub renamed: usize,
    pub errors: usize,
}

/// The scan's report, one line per count.
pub open spec fn scan_report(c: ScanCounts) -> Seq<char> {
    "Processed "@ + decimal(c.processed as int) + " mod folders.\nAdded "@ + decimal(c.added as int)
        + " new mods.\nMapped "@ + decimal(c.remapped as int) + " mods to an agent.\nMoved "@
        + decimal(c.moved as int) + " folders into place.\nGrouped "@ + decimal(c.grouped as int)
        + " mods that arrived together.\nPruned "@ + decimal(c.pruned as int)
        + " missing mods.\nRenamed "@ + decimal(c.renamed as int) + " folders.\n"@ + decimal(
        c.errors as int,
    ) + " errors."@
}

/// The scan's report.
pub fn scan_summary(c: ScanCounts) -> (r: String)
    ensures
        r@ == scan_report(c),
{
    let mut out = chars_of("Processed ");
    extend(&mut out, decimal_usize(c.processed).as_slice());
    extend(&mut out, chars_of(" mod folders.\nAdded ").as_slice());
    extend(&mut out, decimal_usize(c.added).as_slice());
    extend(&mut out, chars_of(" new mods.\nMapped ").as_slice());
    extend(&mut out, decimal_usize(c.remapped).as_slice());
    extend(&mut out, chars_of(" mods to an agent.\nMoved ").as_slice());
    extend(&mut out, decimal_usize(c.moved).as_slice());
    extend(&mut out, chars_of(" folders into place.\nGrouped ").as_slice());
    extend(&mut out, decimal_usize(c.grouped).as_slice());
    extend(&mut out, chars_of(" mods that arrived together.\nPruned ").as_slice());
    extend(&mut out, decimal_usize(c.pruned).as_slice());
    extend(&mut out, chars_of(" missing mods.\nRenamed ").as_slice());
    extend(&mut out, decimal_usize(c.renamed).as_slice());
    extend(&mut out, chars_of(" folders.\n").as_slice());
    extend(&mut out, decimal_usize(c.errors).as_slice());
    extend(&mut out, chars_of(" errors.").as_slice());
    string_of(out.as_slice())
}

/// Whether a folder is a wrapper around one mod: it holds exactly one folder and no `.ini` of
/// its own. Without "exactly one", climbing would gather a folder's several mods into one; without
/// "no `.ini` of its own", it would swallow a mod with a nested variant beneath it.
pub fn is_single_mod_wrapper(has_own_ini: bool, folders_inside: usize) -> (b: bool)
    ensures
        b == (!has_own_ini && folders_inside == 1),
{
    !has_own_ini && folders_inside == 1
}

/// Whether the climb towards a mod's own folder stops at a candidate: at a layout folder, or at
/// one that is not a wrapper around a single mod.
pub fn climb_stops(structural: bool, single_mod_wrapper: bool) -> (b: bool)
    ensures
        b == (structural || !single_mod_wrapper),
{
    structural || !single_mod_wrapper
}

/// Where a mod the scan found is to be placed, from the agent, category and item recorded for it
/// and, for a mod recorded without an agent, the agent deduced for it now: a deduced agent
/// replaces the category and item (the mod is newly mapped to an agent, and the flag says so);
/// otherwise the recorded assignment stands, and the placement only corrects the folder.
pub fn placement_for(
    recorded: (Option<i64>, Option<i64>, Option<i64>),
    deduced_agent: Option<i64>,
) -> (r: ((Option<i64>, Option<i64>, Option<i64>), bool))
    ensures
        r == (if recorded.0 is None && deduced_agent is Some {
            ((deduced_agent, None::<i64>, None::<i64>), true)
        } else {
            (recorded, false)
        }),
{
    if recorded.0.is_none() && deduced_agent.is_some() {
        ((deduced_agent, None, None), true)
    } else {
        (recorded, false)
    }
}

/// The id of the first known mod recorded under `name`.
pub open spec fn id_of(existing: Seq<(i64, Seq<char>)>, name: Seq<char>) -> Option<i64>
    decreases existing.len(),
{
    if existing.len() == 0 {
        None
    } else if existing[0].1 == name {
        Some(existing[0].0)
    } else {
        id_of(existing.drop_first(), name)
    }
}

pub open spec fn rows_view(v: Seq<(i64, String)>) -> Seq<(i64, Seq<char>)> {
    v.map_values(|r: (i64, String)| (r.0, r.1@))
}

fn id_of_exec(existing: &Vec<(i64, String)>, name: &[char]) -> (r: Option<i64>)
    ensures
        r == id_of(rows_view(existing@), name@),
{
    let ghost rv = rows_view(existing@);
    let n = existing.len();
    let mut i: usize = 0;
    assert(rv.skip(0) == rv);
    while i < n
        invariant
            i <= n == existing@.len() == rv.len(),
            rv == rows_view(existing@),
            id_of(rv, name@) == id_of(rv.skip(i as int), name@),
        decreases n - i,
    {
        assert(rv.skip(i as int).drop_first() == rv.skip(i + 1));
        assert(rv[i as int] == (existing@[i as int].0, existing@[i as int].1@));
        if eq_chars(chars_of(existing[i].1.as_str()).as_slice(), name) {
            return Some(existing[i].0);
        }
        i += 1;
    }
    assert(rv.skip(i as int).len() == 0);
    None
}

/// For each mod folder the scan found, the id of the mod already recorded under its name, or
/// `None` for a folder that is new and is to be added.
pub fn known_ids(existing: &Vec<(i64, String)>, found: &Vec<String>) -> (r: Vec<Option<i64>>)
    ensures
        r@.len() == found@.len(),
        forall|i: int| 0 <= i < found@.len() ==> #[trigger] r@[i] == id_of(rows_view(existing@), found@[i]@),
{
    let mut out: Vec<Option<i64>> = Vec::new();
    let n = found.len();
    for i in 0..n
        invariant
            n == found@.len(),
            out@.len() == i,
            forall|j: int| 0 <= j < i ==> #[trigger] out@[j] == id_of(rows_view(existing@), found@[j]@),
    {
        let c = chars_of(found[i].as_str());
        out.push(id_of_exec(existing, c.as_slice()));
    }
    out
}

pub open spec fn packs_view(v: Seq<Option<String>>) -> Seq<Option<Seq<char>>> {
    v.map_values(|o: Option<String>| opt_view(o))
}

/// The positions, below `n`, of the mods that arrived in pack `p`, in order.
pub open spec fn members_upto(v: Seq<Option<Seq<char>>>, p: Seq<char>, n: int) -> Seq<usize>
    decreases n,
{
    if n <= 0 || n > v.len() {
        Seq::empty()
    } else if v[n - 1] == Some(p) {
        members_upto(v, p, n - 1).push((n - 1) as usize)
    } else {
        members_upto(v, p, n - 1)
    }
}

/// The packs among the first `n` mods, each once, in the order they are first seen.
pub open spec fn packs_upto(v: Seq<Option<Seq<char>>>, n: int) -> Seq<Seq<char>>
    decreases n,
{
    if n <= 0 || n > v.len() {
        Seq::empty()
    } else {
        match v[n - 1] {
            Some(p) => if packs_upto(v, n - 1).contains(p) {
                packs_upto(v, n - 1)
            } else {
                packs_upto(v, n - 1).push(p)
            },
            None => packs_upto(v, n - 1),
        }
    }
}

/// The first `k` packs that hold two or more mods, each with its members: one mod in a folder is a
/// wrapper already folded into the mod, two or more arrived together and belong in a group.
pub open spec fn groups_upto(v: Seq<Option<Seq<char>>>, packs: Seq<Seq<char>>, k: int) -> Seq<(Seq<char>, Seq<usize>)>
    decreases k,
{
    if k <= 0 || k > packs.len() {
        Seq::empty()
    } else {
        let m = members_upto(v, packs[k - 1], v.len() as int);
        if m.len() > 1 {
            groups_upto(v, packs, k - 1).push((packs[k - 1], m))
        } else {
            groups_upto(v, packs, k - 1)
        }
    }
}

/// The groups a scan makes, given the pack (if any) each found mod arrived in.
pub open spec fn groups_of(v: Seq<Option<Seq<char>>>) -> Seq<(Seq<char>, Seq<usize>)> {
    let packs = packs_upto(v, v.len() as int);
    groups_upto(v, packs, packs.len() as int)
}

fn same_pack(o: &Option<String>, p: &[char]) -> (b: bool)
    ensures
        b == (opt_view(*o) == Some(p@)),
{
    match o {
        Some(x) => eq_chars(chars_of(x.as_str()).as_slice(), p),
        None => false,
    }
}

fn members_exec(v: &Vec<Option<String>>, p: &[char]) -> (r: Vec<usize>)
    ensures
        r@ == members_upto(packs_view(v@), p@, v@.len() as int),
{
    let ghost pv = packs_view(v@);
    let mut out: Vec<usize> = Vec::new();
    let n = v.len();
    for i in 0..n
        invariant
            n == v@.len() == pv.len(),
            pv == packs_view(v@),
            out@ == members_upto(pv, p@, i as int),
    {
        assert(pv[i as int] == opt_view(v@[i as int]));
        if same_pack(&v[i], p) {
            out.push(i);
        }
    }
    out
}

/// The packs to put into groups, in the order their first mod was found, each with the positions
/// of its mods; a pack of one mod is no group.
pub fn packs_to_group(pack_of: &Vec<Option<String>>) -> (r: Vec<(String, Vec<usize>)>)
    ensures
        r@.map_values(|g: (String, Vec<usize>)| (g.0@, g.1@)) == groups_of(packs_view(pack_of@)),
{
    let ghost pv = packs_view(pack_of@);
    let n = pack_of.len();
    let mut packs: Vec<Vec<char>> = Vec::new();
    for i in 0..n
        invariant
            n == pack_of@.len() == pv.len(),
            pv == packs_view(pack_of@),
            views(packs@) == packs_upto(pv, i as int),
    {
        assert(pv[i as int] == opt_view(pack_of@[i as int]));
        match &pack_of[i] {
            Some(x) => {
                let c = chars_of(x.as_str());
                let m = packs.len();
                let mut seen = false;
                for j in 0..m
                    invariant
                        m == packs@.len(),
                        seen == exists|q: int| 0 <= q < j && views(packs@)[q] == c@,
                {
                    assert(views(packs@)[j as int] == packs@[j as int]@);
                    if eq_chars(packs[j].as_slice(), c.as_slice()) {
                        seen = true;
                    }
                }
                proof {
                    if views(packs@).contains(c@) {
                        let q = choose|q: int| 0 <= q < views(packs@).len() && views(packs@)[q] == c@;
                        assert(seen);
                    }
                }
                if !seen {
                    let ghost before = views(packs@);
                    packs.push(c);
                    assert(views(packs@) == before.push(c@));
                }
            },
            None => {},
        }
    }
    let ghost ps = views(packs@);
    let k = packs.len();
    let mut out: Vec<(String, Vec<usize>)> = Vec::new();
    for j in 0..k
        invariant
            k == packs@.len() == ps.len(),
            ps == views(packs@),
            ps == packs_upto(pv, pv.len() as int),
            pv == packs_view(pack_of@),
            pv.len() == pack_of@.len(),
            out@.map_values(|g: (String, Vec<usize>)| (g.0@, g.1@)) == groups_upto(pv, ps, j as int),
    {
        let members = members_exec(pack_of, packs[j].as_slice());
        assert(packs[j as int]@ == ps[j as int]);
        if members.len() > 1 {
            let ghost before = out@.map_values(|g: (String, Vec<usize>)| (g.0@, g.1@));
            out.push((string_of(packs[j].as_slice()), members));
            assert(out@.map_values(|g: (String, Vec<usize>)| (g.0@, g.1@)) == before.push((ps[j as int], members@)));
        }
    }
    out
}

} // verus!
