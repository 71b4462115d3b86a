//! Tests for the geometry solver: exact rectangle arithmetic, the tiling
//! guarantee on concrete trees, splitter placement, and layout density.

use tui_tiling::geometry::{get_density, solve_layout, LayoutDensity, PaneRegion, Rect};
use tui_tiling::layout::{LayoutNode, SplitDirection, TilingManager, ViewType};

fn pane(id: usize) -> LayoutNode {
    LayoutNode::Pane { id, view: ViewType::Empty }
}

fn split(direction: SplitDirection, ratio: u16, left: LayoutNode, right: LayoutNode) -> LayoutNode {
    LayoutNode::Split { direction, ratio, left: Box::new(left), right: Box::new(right) }
}

fn contains(r: &Rect, x: u32, y: u32) -> bool {
    (r.x as u32) <= x
        && x < r.x as u32 + r.width as u32
        && (r.y as u32) <= y
        && y < r.y as u32 + r.height as u32
}

fn assert_exact_tiling(panes: &[PaneRegion], outer: Rect) {
    // Every cell of the outer rectangle is covered by exactly one pane.
    for y in outer.y as u32..outer.y as u32 + outer.height as u32 {
        for x in outer.x as u32..outer.x as u32 + outer.width as u32 {
            let covering = panes.iter().filter(|p| contains(&p.rect, x, y)).count();
            assert_eq!(covering, 1, "cell ({x},{y}) covered {covering} times");
        }
    }
    // And no pane sticks out.
    let area: u64 = panes
        .iter()
        .map(|p| p.rect.width as u64 * p.rect.height as u64)
        .sum();
    assert_eq!(area, outer.width as u64 * outer.height as u64);
}

#[test]
fn half_split_divides_width_by_floor() {
    let tree = split(SplitDirection::Horizontal, 50, pane(1), pane(2));
    let outer = Rect { x: 0, y: 0, width: 101, height: 10 };
    let (panes, splits) = solve_layout(&tree, outer);
    assert_eq!(panes.len(), 2);
    // floor(101 * 50 / 100) = 50, the remainder is 51.
    assert_eq!(panes[0], PaneRegion { id: 1, rect: Rect { x: 0, y: 0, width: 50, height: 10 } });
    assert_eq!(panes[1], PaneRegion { id: 2, rect: Rect { x: 50, y: 0, width: 51, height: 10 } });
    assert_eq!(splits.len(), 1);
    assert_eq!(splits[0].rect, Rect { x: 50, y: 0, width: 1, height: 10 });
    assert_eq!(splits[0].container, 101);
    assert_eq!(splits[0].ratio, 50);
    assert!(splits[0].path.is_empty());
}

#[test]
fn vertical_split_uses_height() {
    let tree = split(SplitDirection::Vertical, 33, pane(1), pane(2));
    let outer = Rect { x: 5, y: 7, width: 40, height: 30 };
    let (panes, splits) = solve_layout(&tree, outer);
    // floor(30 * 33 / 100) = 9, the remainder is 21.
    assert_eq!(panes[0].rect, Rect { x: 5, y: 7, width: 40, height: 9 });
    assert_eq!(panes[1].rect, Rect { x: 5, y: 16, width: 40, height: 21 });
    assert_eq!(splits[0].rect, Rect { x: 5, y: 16, width: 40, height: 1 });
    assert_eq!(splits[0].container, 30);
}

#[test]
fn nested_tree_tiles_exactly() {
    let tree = split(
        SplitDirection::Horizontal,
        37,
        split(SplitDirection::Vertical, 61, pane(1), pane(2)),
        split(
            SplitDirection::Horizontal,
            13,
            pane(3),
            split(SplitDirection::Vertical, 88, pane(4), pane(5)),
        ),
    );
    let outer = Rect { x: 3, y: 2, width: 97, height: 43 };
    let (panes, _) = solve_layout(&tree, outer);
    assert_eq!(panes.len(), 5);
    assert_exact_tiling(&panes, outer);
}

#[test]
fn degenerate_rectangles_tile_without_panic() {
    let tree = split(SplitDirection::Horizontal, 50, pane(1), pane(2));
    let outer = Rect { x: 0, y: 0, width: 0, height: 0 };
    let (panes, _) = solve_layout(&tree, outer);
    assert_eq!(panes.len(), 2);
    assert_exact_tiling(&panes, outer);
    let thin = Rect { x: 9, y: 9, width: 1, height: 1 };
    let (panes, _) = solve_layout(&tree, thin);
    assert_exact_tiling(&panes, thin);
}

#[test]
fn splitter_paths_name_their_splits() {
    let tree = split(
        SplitDirection::Horizontal,
        50,
        split(SplitDirection::Vertical, 50, pane(1), pane(2)),
        pane(3),
    );
    let outer = Rect { x: 0, y: 0, width: 80, height: 24 };
    let (_, splits) = solve_layout(&tree, outer);
    assert_eq!(splits.len(), 2);
    assert!(splits[0].path.is_empty());
    assert_eq!(splits[1].path, vec![0]);
}

#[test]
fn solver_output_follows_manager_state() {
    let mut tm = TilingManager::new();
    tm.split(SplitDirection::Horizontal);
    tm.split(SplitDirection::Vertical);
    let outer = Rect { x: 0, y: 0, width: 120, height: 40 };
    let (panes, _) = solve_layout(&tm.root, outer);
    let ids: Vec<usize> = panes.iter().map(|p| p.id).collect();
    assert_eq!(ids, vec![1, 2, 3]);
    assert_exact_tiling(&panes, outer);
}

#[test]
fn density_thresholds() {
    let r = |width, height| Rect { x: 0, y: 0, width, height };
    assert_eq!(get_density(r(19, 20)), LayoutDensity::Tiny);
    assert_eq!(get_density(r(100, 5)), LayoutDensity::Tiny);
    assert_eq!(get_density(r(20, 6)), LayoutDensity::Compact);
    assert_eq!(get_density(r(44, 40)), LayoutDensity::Compact);
    assert_eq!(get_density(r(60, 14)), LayoutDensity::Compact);
    assert_eq!(get_density(r(45, 15)), LayoutDensity::Normal);
    assert_eq!(get_density(r(200, 60)), LayoutDensity::Normal);
}
