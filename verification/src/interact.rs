//! The interaction protocol: a small state machine that turns pointer and
//! digit-key events into layout mutations, using the frame's pane and
//! splitter caches for hit-testing. A drag captures the splitter's path,
//! starting ratio, pointer position and container length at pointer-down,
//! and every later move is resolved against that capture, never against the
//! live ratio, so move events cannot compound.

use vstd::prelude::*;
use crate::layout::{TilingManager, SplitDirection};
use crate::geometry::{PaneRegion, SplitterRegion, in_rect, copy_path};

verus! {

/// State captured at pointer-down on a splitter handle; alive only until
/// the matching pointer-up.
pub struct DragState {
    pub split_path: Vec<usize>,
    pub start_ratio: u16,
    pub start_mouse_pos: (u16, u16),
    pub direction: SplitDirection,
    pub container_size: u16,
}

/// The first pane region in cache order that contains the cell `(x, y)`.
pub open spec fn first_pane_hit(panes: Seq<PaneRegion>, x: int, y: int) -> Option<PaneRegion>
    decreases panes.len(),
{
    if panes.len() == 0 {
        None
    } else if in_rect(panes.first().rect, x, y) {
        Some(panes.first())
    } else {
        first_pane_hit(panes.drop_first(), x, y)
    }
}

/// The first splitter region in cache order that contains the cell `(x, y)`.
pub open spec fn first_splitter_hit(splits: Seq<SplitterRegion>, x: int, y: int) -> Option<int>
    decreases splits.len(),
{
    if splits.len() == 0 {
        None
    } else if in_rect(splits.first().rect, x, y) {
        Some(0)
    } else {
        match first_splitter_hit(splits.drop_first(), x, y) {
            Some(i) => Some(i + 1),
            None => None,
        }
    }
}

/// Signed pointer displacement along the captured drag axis.
pub open spec fn drag_displacement(d: DragState, x: int, y: int) -> int {
    match d.direction {
        SplitDirection::Horizontal => x - d.start_mouse_pos.0,
        SplitDirection::Vertical => y - d.start_mouse_pos.1,
    }
}

/// Displacement converted to a ratio delta: `displacement / container`
/// scaled to percent and rounded to the nearest integer, ties away from
/// zero. A degenerate container yields no delta.
pub open spec fn ratio_delta(disp: int, container: int) -> int {
    if container <= 0 {
        0
    } else if disp >= 0 {
        (disp * 100 + container / 2) / container
    } else {
        -(((-disp) * 100 + container / 2) / container)
    }
}

/// The ratio a move event drives the captured split to, before the final
/// clamp into [10, 90].
pub open spec fn drag_target(d: DragState, x: int, y: int) -> int {
    d.start_ratio + ratio_delta(drag_displacement(d, x, y), d.container_size as int)
}

/// Finds the first pane region containing `(x, y)`, if any.
pub fn hit_pane(panes: &Vec<PaneRegion>, x: u16, y: u16) -> (r: Option<PaneRegion>)
    ensures
        r == first_pane_hit(panes@, x as int, y as int),
{
    let mut i: usize = 0;
    proof {
        assert(panes@.skip(0) =~= panes@);
    }
    while i < panes.len()
        invariant
            i <= panes@.len(),
            first_pane_hit(panes@, x as int, y as int) == first_pane_hit(
                panes@.skip(i as int),
                x as int,
                y as int,
            ),
        decreases panes@.len() - i,
    {
        proof {
            assert(panes@.skip(i as int).first() == panes@[i as int]);
            assert(panes@.skip(i as int).drop_first() =~= panes@.skip(i as int + 1));
        }
        let p = panes[i];
        if x >= p.rect.x && (x as u32) < p.rect.x as u32 + p.rect.width as u32 && y >= p.rect.y
            && (y as u32) < p.rect.y as u32 + p.rect.height as u32 {
            return Some(p);
        }
        i += 1;
    }
    proof {
        assert(panes@.skip(i as int) =~= Seq::<PaneRegion>::empty());
    }
    None
}

/// Finds the index of the first splitter region containing `(x, y)`.
pub fn hit_splitter(splits: &Vec<SplitterRegion>, x: u16, y: u16) -> (r: Option<usize>)
    ensures
        (match r {
            Some(i) => first_splitter_hit(splits@, x as int, y as int) == Some(i as int) && i
                < splits@.len(),
            None => first_splitter_hit(splits@, x as int, y as int) is None,
        }),
{
    let mut i: usize = 0;
    proof {
        assert(splits@.skip(0) =~= splits@);
    }
    while i < splits.len()
        invariant
            i <= splits@.len(),
            (match first_splitter_hit(splits@.skip(i as int), x as int, y as int) {
                Some(k) => first_splitter_hit(splits@, x as int, y as int) == Some(
                    k + i as int,
                ),
                None => first_splitter_hit(splits@, x as int, y as int) is None,
            }),
        decreases splits@.len() - i,
    {
        proof {
            assert(splits@.skip(i as int).first() == splits@[i as int]);
            assert(splits@.skip(i as int).drop_first() =~= splits@.skip(i as int + 1));
        }
        let hit = {
            let rct = splits[i].rect;
            x >= rct.x && (x as u32) < rct.x as u32 + rct.width as u32 && y >= rct.y && (y
                as u32) < rct.y as u32 + rct.height as u32
        };
        if hit {
            return Some(i);
        }
        i += 1;
    }
    proof {
        assert(splits@.skip(i as int) =~= Seq::<SplitterRegion>::empty());
    }
    None
}

/// Pointer-down: over a splitter handle it starts a drag, capturing the
/// handle's path, axis, ratio and container length; anywhere else it ends
/// any stale drag and moves the focus to the pane under the pointer.
pub fn pointer_down(
    tiling: &mut TilingManager,
    drag: &mut Option<DragState>,
    panes: &Vec<PaneRegion>,
    splits: &Vec<SplitterRegion>,
    x: u16,
    y: u16,
)
    requires
        old(tiling).wf(),
    ensures
        final(tiling).wf(),
        (match first_splitter_hit(splits@, x as int, y as int) {
            Some(i) => {
                &&& *final(tiling) == *old(tiling)
                &&& *final(drag) matches Some(d)
                &&& d.split_path@ == splits@[i].path@
                &&& d.start_ratio == splits@[i].ratio
                &&& d.start_mouse_pos == (x, y)
                &&& d.direction == splits@[i].direction
                &&& d.container_size == splits@[i].container
            },
            None => {
                &&& *final(drag) is None
                &&& (match first_pane_hit(panes@, x as int, y as int) {
                    Some(p) => {
                        &&& old(tiling).root.contains_pane(p.id as int) ==> *final(tiling)
                            == (TilingManager { focused_pane_id: p.id, ..*old(tiling) })
                        &&& !old(tiling).root.contains_pane(p.id as int) ==> *final(tiling)
                            == *old(tiling)
                    },
                    None => *final(tiling) == *old(tiling),
                })
            },
        }),
{
    let si = hit_splitter(splits, x, y);
    match si {
        Some(i) => {
            let s = &splits[i];
            let captured = DragState {
                split_path: copy_path(&s.path),
                start_ratio: s.ratio,
                start_mouse_pos: (x, y),
                direction: s.direction,
                container_size: s.container,
            };
            *drag = Some(captured);
        },
        None => {
            *drag = None;
            let hit = hit_pane(panes, x, y);
            match hit {
                Some(p) => {
                    tiling.focus_pane(p.id);
                },
                None => {},
            }
        },
    }
}

/// Pointer-move: during a drag, resolves the move against the captured
/// state and sets the captured split's ratio to the captured starting ratio
/// plus the rounded displacement share, clamped into [10, 90]. Without a
/// drag it does nothing.
pub fn pointer_move(tiling: &mut TilingManager, drag: &Option<DragState>, x: u16, y: u16)
    requires
        old(tiling).wf(),
    ensures
        final(tiling).wf(),
        (match drag {
            None => *final(tiling) == *old(tiling),
            Some(d) => {
                &&& final(tiling).root == old(tiling).root.set_ratio_at(
                    d.split_path@,
                    drag_target(*d, x as int, y as int),
                )
                &&& final(tiling).focused_pane_id == old(tiling).focused_pane_id
                &&& final(tiling).next_id == old(tiling).next_id
                &&& final(tiling).is_default == old(tiling).is_default
                &&& final(tiling).theme_variant == old(tiling).theme_variant
            },
        }),
{
    match drag {
        None => {},
        Some(d) => {
            let disp: i32 = match d.direction {
                SplitDirection::Horizontal => x as i32 - d.start_mouse_pos.0 as i32,
                SplitDirection::Vertical => y as i32 - d.start_mouse_pos.1 as i32,
            };
            let delta: i32 = if d.container_size == 0 {
                0
            } else {
                let c = d.container_size as i32;
                if disp >= 0 {
                    (disp * 100 + c / 2) / c
                } else {
                    -(((-disp) * 100 + c / 2) / c)
                }
            };
            let target: i32 = d.start_ratio as i32 + delta;
            let wanted: u16 = if target < 10 {
                10
            } else if target > 90 {
                90
            } else {
                target as u16
            };
            proof {
                crate::layout::lemma_set_ratio_same_clamp(
                    old(tiling).root,
                    d.split_path@,
                    wanted as int,
                    drag_target(*d, x as int, y as int),
                );
            }
            tiling.set_split_ratio(d.split_path.as_slice(), wanted);
        },
    }
}

/// Pointer-up, or any event that breaks the drag: the protocol returns to
/// idle unconditionally.
pub fn pointer_up(drag: &mut Option<DragState>)
    ensures
        *final(drag) is None,
{
    *drag = None;
}

/// The pane id a digit key addresses: `1`..`9` name panes 1..9 and `0`
/// names slot 10.
pub open spec fn digit_slot(digit: u8) -> int {
    if digit == 0 {
        10
    } else {
        digit as int
    }
}

/// Digit-key focus: moves the focus to the addressed pane, but only when a
/// pane region with that id is in the current frame's cache.
pub fn focus_digit(tiling: &mut TilingManager, panes: &Vec<PaneRegion>, digit: u8)
    requires
        old(tiling).wf(),
        digit <= 9,
    ensures
        final(tiling).wf(),
        final(tiling).root == old(tiling).root,
        final(tiling).next_id == old(tiling).next_id,
        final(tiling).is_default == old(tiling).is_default,
        final(tiling).theme_variant == old(tiling).theme_variant,
        (exists|i: int| 0 <= i < panes@.len() && #[trigger] panes@[i].id == digit_slot(digit))
            && old(tiling).root.contains_pane(digit_slot(digit)) ==> final(tiling).focused_pane_id
            == digit_slot(digit),
        !(exists|i: int| 0 <= i < panes@.len() && #[trigger] panes@[i].id == digit_slot(digit))
            ==> *final(tiling) == *old(tiling),
        !old(tiling).root.contains_pane(digit_slot(digit)) ==> *final(tiling) == *old(tiling),
    {
    let slot: usize = if digit == 0 {
        10
    } else {
        digit as usize
    };
    let mut i: usize = 0;
    let mut found: bool = false;
    while i < panes.len()
        invariant
            i <= panes@.len(),
            found <==> exists|j: int| 0 <= j < i && #[trigger] panes@[j].id == slot,
            slot == digit_slot(digit),
        decreases panes@.len() - i,
    {
        if panes[i].id == slot {
            found = true;
        }
        i += 1;
    }
    if found {
        tiling.focus_pane(slot);
    }
}

} // verus!
