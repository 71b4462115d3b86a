//! Decisions about the template catalog: which entry loads at startup and
//! which files must be rewritten when one template is made the default.
//! The surrounding application lists the catalog directory and performs the
//! file writes; the choices themselves are made here.

use vstd::prelude::*;
use crate::layout::TilingManager;

verus! {

/// Whether a loaded template is flagged as the startup default.
pub fn is_template_default(tm: &TilingManager) -> (r: bool)
    ensures
        r == tm.is_default,
{
    tm.is_default
}

/// The catalog entry to load at startup: the first one flagged default, in
/// listing order; none when no entry is flagged.
pub fn select_startup_template(entries: &Vec<(String, bool)>) -> (r: Option<usize>)
    ensures
        (match r {
            Some(i) => i < entries@.len() && entries@[i as int].1 && (forall|j: int|
                0 <= j < i ==> !entries@[j].1),
            None => forall|j: int| 0 <= j < entries@.len() ==> !entries@[j].1,
        }),
{
    let mut i: usize = 0;
    while i < entries.len()
        invariant
            i <= entries@.len(),
            forall|j: int| 0 <= j < i ==> !entries@[j].1,
        decreases entries@.len() - i,
    {
        if entries[i].1 {
            return Some(i);
        }
        i += 1;
    }
    None
}

/// An entry whose stored flag disagrees with `target` being the default.
pub open spec fn needs_flag_write(entry: (String, bool), target: Seq<char>) -> bool {
    if entry.0@ == target {
        !entry.1
    } else {
        entry.1
    }
}

/// The file writes that make `target` the single default template: one
/// `(entry index, new flag)` pair for every entry whose flag must change —
/// the target gains the flag unless it already has it, every other flagged
/// entry loses its flag. Indices come out in listing order.
pub fn set_default_template(entries: &Vec<(String, bool)>, target: &String) -> (writes: Vec<
    (usize, bool),
>)
    ensures
        forall|k: int|
            0 <= k < writes@.len() ==> {
                &&& #[trigger] writes@[k].0 < entries@.len()
                &&& needs_flag_write(entries@[writes@[k].0 as int], target@)
                &&& (writes@[k].1 <==> entries@[writes@[k].0 as int].0@ == target@)
            },
        forall|i: int|
            0 <= i < entries@.len() && #[trigger] needs_flag_write(entries@[i], target@)
                ==> exists|k: int| 0 <= k < writes@.len() && writes@[k].0 == i,
        forall|k1: int, k2: int|
            0 <= k1 < k2 < writes@.len() ==> writes@[k1].0 < writes@[k2].0,
{
    let mut writes: Vec<(usize, bool)> = Vec::new();
    let mut i: usize = 0;
    while i < entries.len()
        invariant
            i <= entries@.len(),
            forall|k: int|
                0 <= k < writes@.len() ==> {
                    &&& #[trigger] writes@[k].0 < i
                    &&& needs_flag_write(entries@[writes@[k].0 as int], target@)
                    &&& (writes@[k].1 <==> entries@[writes@[k].0 as int].0@ == target@)
                },
            forall|j: int|
                0 <= j < i && #[trigger] needs_flag_write(entries@[j], target@) ==> exists|k: int|
                    0 <= k < writes@.len() && writes@[k].0 == j,
            forall|k1: int, k2: int|
                0 <= k1 < k2 < writes@.len() ==> writes@[k1].0 < writes@[k2].0,
        decreases entries@.len() - i,
    {
        let ghost writes0 = writes@;
        let entry = &entries[i];
        let is_target = entry.0 == *target;
        if is_target && !entry.1 {
            writes.push((i, true));
        } else if !is_target && entry.1 {
            writes.push((i, false));
        }
        proof {
            assert forall|j: int|
                0 <= j < i + 1 && #[trigger] needs_flag_write(entries@[j], target@)
                    implies exists|k: int| 0 <= k < writes@.len() && writes@[k].0 == j by {
                if j == i {
                    assert(writes@[writes@.len() - 1].0 == i);
                } else {
                    let k0 = choose|k: int| 0 <= k < writes0.len() && writes0[k].0 == j;
                    assert(writes@[k0].0 == j);
                }
            }
        }
        i += 1;
    }
    writes
}

} // verus!
