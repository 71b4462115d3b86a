//! Tests for the interaction protocol: click-to-focus, digit focus, and the
//! drag-to-resize state machine resolved against captured drag state.

use tui_tiling::geometry::{solve_layout, Rect};
use tui_tiling::interact::{focus_digit, pointer_down, pointer_move, pointer_up, DragState};
use tui_tiling::layout::{LayoutNode, SplitDirection, TilingManager};

fn root_ratio(tm: &TilingManager) -> u16 {
    match &tm.root {
        LayoutNode::Split { ratio, .. } => *ratio,
        _ => panic!("expected a split at the root"),
    }
}

#[test]
fn drag_scenario_moves_ratio_by_rounded_share() {
    // A splitter at the root path, horizontal axis, starting ratio 50,
    // container length 100 cells: dragging 20 cells to the left must land
    // the ratio exactly on 30.
    let mut tm = TilingManager::new();
    tm.split(SplitDirection::Horizontal);
    let outer = Rect { x: 0, y: 0, width: 100, height: 20 };
    let (panes, splits) = solve_layout(&tm.root, outer);
    let mut drag: Option<DragState> = None;

    // Pointer-down on the splitter strip at x = 50 starts the drag.
    pointer_down(&mut tm, &mut drag, &panes, &splits, 50, 10);
    let d = drag.as_ref().expect("drag must have started");
    assert_eq!(d.start_ratio, 50);
    assert_eq!(d.container_size, 100);
    assert_eq!(d.start_mouse_pos, (50, 10));
    assert!(d.split_path.is_empty());

    pointer_move(&mut tm, &drag, 30, 10);
    assert_eq!(root_ratio(&tm), 30);

    // Later moves still resolve against the captured starting ratio, so
    // they do not compound: moving back to the starting column restores 50.
    pointer_move(&mut tm, &drag, 50, 10);
    assert_eq!(root_ratio(&tm), 50);

    pointer_up(&mut drag);
    assert!(drag.is_none());
}

#[test]
fn drag_clamps_to_ratio_bounds() {
    let mut tm = TilingManager::new();
    tm.split(SplitDirection::Horizontal);
    let outer = Rect { x: 0, y: 0, width: 100, height: 20 };
    let (panes, splits) = solve_layout(&tm.root, outer);
    let mut drag: Option<DragState> = None;
    pointer_down(&mut tm, &mut drag, &panes, &splits, 50, 5);
    pointer_move(&mut tm, &drag, 0, 5);
    assert_eq!(root_ratio(&tm), 10);
    pointer_move(&mut tm, &drag, 99, 5);
    assert_eq!(root_ratio(&tm), 90);
}

#[test]
fn drag_rounds_to_nearest_percent() {
    let mut tm = TilingManager::new();
    tm.split(SplitDirection::Vertical);
    let outer = Rect { x: 0, y: 0, width: 30, height: 200 };
    let (panes, splits) = solve_layout(&tm.root, outer);
    let mut drag: Option<DragState> = None;
    // The vertical splitter sits at y = 100.
    pointer_down(&mut tm, &mut drag, &panes, &splits, 10, 100);
    assert!(drag.is_some());
    // 25 cells of 200 are 12.5 percent; rounding lands on 13.
    pointer_move(&mut tm, &drag, 10, 125);
    assert_eq!(root_ratio(&tm), 63);
    // -3 cells of 200 are -1.5 percent; rounding away from zero gives -2.
    pointer_move(&mut tm, &drag, 10, 97);
    assert_eq!(root_ratio(&tm), 48);
}

#[test]
fn pointer_down_on_pane_focuses_it() {
    let mut tm = TilingManager::new();
    tm.split(SplitDirection::Horizontal);
    assert_eq!(tm.focused_pane_id, 2);
    let outer = Rect { x: 0, y: 0, width: 100, height: 20 };
    let (panes, splits) = solve_layout(&tm.root, outer);
    let mut drag: Option<DragState> = None;
    // x = 10 lies inside pane 1's half.
    pointer_down(&mut tm, &mut drag, &panes, &splits, 10, 10);
    assert!(drag.is_none());
    assert_eq!(tm.focused_pane_id, 1);
    // A pointer-down outside every region changes nothing.
    pointer_down(&mut tm, &mut drag, &panes, &splits, 10, 50);
    assert_eq!(tm.focused_pane_id, 1);
}

#[test]
fn pointer_down_elsewhere_cancels_a_stale_drag() {
    let mut tm = TilingManager::new();
    tm.split(SplitDirection::Horizontal);
    let outer = Rect { x: 0, y: 0, width: 100, height: 20 };
    let (panes, splits) = solve_layout(&tm.root, outer);
    let mut drag: Option<DragState> = None;
    pointer_down(&mut tm, &mut drag, &panes, &splits, 50, 10);
    assert!(drag.is_some());
    pointer_down(&mut tm, &mut drag, &panes, &splits, 10, 10);
    assert!(drag.is_none());
}

#[test]
fn move_without_drag_changes_nothing() {
    let mut tm = TilingManager::new();
    tm.split(SplitDirection::Horizontal);
    let drag: Option<DragState> = None;
    pointer_move(&mut tm, &drag, 70, 3);
    assert_eq!(root_ratio(&tm), 50);
}

#[test]
fn digit_focus_needs_a_cached_region() {
    let mut tm = TilingManager::new();
    tm.split(SplitDirection::Horizontal);
    tm.split(SplitDirection::Horizontal);
    let outer = Rect { x: 0, y: 0, width: 90, height: 30 };
    let (panes, _) = solve_layout(&tm.root, outer);
    focus_digit(&mut tm, &panes, 1);
    assert_eq!(tm.focused_pane_id, 1);
    focus_digit(&mut tm, &panes, 2);
    assert_eq!(tm.focused_pane_id, 2);
    // No pane 7 exists in the cache: the key is ignored.
    focus_digit(&mut tm, &panes, 7);
    assert_eq!(tm.focused_pane_id, 2);
    // Digit 0 names slot 10, which does not exist either.
    focus_digit(&mut tm, &panes, 0);
    assert_eq!(tm.focused_pane_id, 2);
}
