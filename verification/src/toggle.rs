//! Flipping mods on and off so that each comes back the way the user left it.
//!
//! The rename itself, the variable file and the database are handled outside the library. What is
//! decided here is the order's content: which flips need a flush first, which mods are
//! snapshotted before the rename, and which get their variables restored after it.

use vstd::prelude::*;
use crate::text::{chars_of, string_of};

verus! {

/// A mod that is about to be flipped, resolved before anything touches the disk.
pub struct Flip {
    pub mod_id: i64,
    pub folder_name: String,
    pub was_enabled: bool,
}

/// Ask 3DMigoto to flush its variables first only when something is being turned off (the
/// direction that loses state) and the user allowed keypresses at all.
pub fn needs_flush(flips: &[Flip], auto_reload: bool) -> (b: bool)
    ensures
        b == (auto_reload && exists|i: int| 0 <= i < flips@.len() && (#[trigger] flips@[i]).was_enabled),
{
    if !auto_reload {
        return false;
    }
    let n = flips.len();
    for i in 0..n
        invariant
            n == flips@.len(),
            auto_reload,
            forall|j: int| 0 <= j < i ==> !(#[trigger] flips@[j]).was_enabled,
    {
        if flips[i].was_enabled {
            return true;
        }
    }
    false
}

/// The mods being turned off, as `(id, folder name)` in order: their variables are snapshotted
/// while the folders still carry the names their keys were written under.
pub open spec fn snapshot_targets(flips: Seq<Flip>) -> Seq<(i64, Seq<char>)> {
    flips.filter(|f: Flip| f.was_enabled).map_values(|f: Flip| (f.mod_id, f.folder_name@))
}

/// The mods being turned on, by id in order: their parked variables are written back after the
/// rename.
pub open spec fn restore_targets(flips: Seq<Flip>) -> Seq<i64> {
    flips.filter(|f: Flip| !f.was_enabled).map_values(|f: Flip| f.mod_id)
}

pub fn to_snapshot(flips: &[Flip]) -> (r: Vec<(i64, String)>)
    ensures
        r@.map_values(|p: (i64, String)| (p.0, p.1@)) == snapshot_targets(flips@),
{
    let ghost pred = |f: Flip| f.was_enabled;
    let mut out: Vec<(i64, String)> = Vec::new();
    let n = flips.len();
    for i in 0..n
        invariant
            n == flips@.len(),
            pred == (|f: Flip| f.was_enabled),
            out@.map_values(|p: (i64, String)| (p.0, p.1@)) == flips@.take(i as int).filter(
                pred,
            ).map_values(|f: Flip| (f.mod_id, f.folder_name@)),
    {
        let ghost before = flips@.take(i as int);
        assert(flips@.take(i + 1) == before.push(flips@[i as int]));
        proof {
            before.lemma_filter_push(flips@[i as int], pred);
        }
        let ghost prev = out@.map_values(|p: (i64, String)| (p.0, p.1@));
        if flips[i].was_enabled {
            let name = string_of(chars_of(flips[i].folder_name.as_str()).as_slice());
            out.push((flips[i].mod_id, name));
            assert(out@.map_values(|p: (i64, String)| (p.0, p.1@)) == prev.push(
                (flips@[i as int].mod_id, flips@[i as int].folder_name@),
            ));
            assert(before.filter(pred).push(flips@[i as int]).map_values(
                |f: Flip| (f.mod_id, f.folder_name@),
            ) == before.filter(pred).map_values(|f: Flip| (f.mod_id, f.folder_name@)).push(
                (flips@[i as int].mod_id, flips@[i as int].folder_name@),
            ));
        }
        assert(out@.map_values(|p: (i64, String)| (p.0, p.1@)) == flips@.take(i + 1).filter(
            pred,
        ).map_values(|f: Flip| (f.mod_id, f.folder_name@)));
    }
    assert(flips@.take(n as int) == flips@);
    out
}

pub fn to_restore(flips: &[Flip]) -> (r: Vec<i64>)
    ensures
        r@ == restore_targets(flips@),
{
    let ghost pred = |f: Flip| !f.was_enabled;
    let mut out: Vec<i64> = Vec::new();
    let n = flips.len();
    for i in 0..n
        invariant
            n == flips@.len(),
            pred == (|f: Flip| !f.was_enabled),
            out@ == flips@.take(i as int).filter(pred).map_values(|f: Flip| f.mod_id),
    {
        let ghost before = flips@.take(i as int);
        assert(flips@.take(i + 1) == before.push(flips@[i as int]));
        proof {
            before.lemma_filter_push(flips@[i as int], pred);
        }
        if !flips[i].was_enabled {
            out.push(flips[i].mod_id);
        }
        assert(out@ == flips@.take(i + 1).filter(pred).map_values(|f: Flip| f.mod_id));
    }
    assert(flips@.take(n as int) == flips@);
    out
}

/// Every flip is handled exactly once: a mod being turned off is snapshotted, one being turned on
/// is restored, and together they are all the flips.
pub proof fn every_flip_is_snapshotted_or_restored(flips: Seq<Flip>)
    ensures
        snapshot_targets(flips).len() + restore_targets(flips).len() == flips.len(),
    decreases flips.len(),
{
    reveal(Seq::filter);
    if flips.len() > 0 {
        every_flip_is_snapshotted_or_restored(flips.drop_last());
    }
}

} // verus!
