//! Tests for the layout tree mutations: splitting, closing, focus motion,
//! view assignment and ratio adjustment.

use tui_tiling::layout::{LayoutNode, SplitDirection, TilingManager, ViewBehavior, ViewType};
use tui_tiling::layout::find_view_type_recursive;

fn pane_ids_in_order(node: &LayoutNode, out: &mut Vec<usize>) {
    match node {
        LayoutNode::Pane { id, .. } => out.push(*id),
        LayoutNode::Split { left, right, .. } => {
            pane_ids_in_order(left, out);
            pane_ids_in_order(right, out);
        }
    }
}

#[test]
fn new_manager_is_single_pane() {
    let tm = TilingManager::new();
    assert_eq!(tm.focused_pane_id, 1);
    assert_eq!(tm.next_id, 2);
    assert!(!tm.is_default);
    assert_eq!(tm.get_pane_count(), 1);
    assert!(matches!(tm.root, LayoutNode::Pane { id: 1, view: ViewType::Empty }));
}

#[test]
fn split_scenario_nested_then_close_collapses_and_reindexes() {
    // A single pane id 1, split horizontally: Split{Horizontal,50,[1,2]},
    // focus moves to 2.
    let mut tm = TilingManager::new();
    tm.split(SplitDirection::Horizontal);
    assert_eq!(tm.get_pane_count(), 2);
    assert_eq!(tm.focused_pane_id, 2);
    match &tm.root {
        LayoutNode::Split { direction, ratio, left, right } => {
            assert!(matches!(direction, SplitDirection::Horizontal));
            assert_eq!(*ratio, 50);
            assert!(matches!(**left, LayoutNode::Pane { id: 1, .. }));
            assert!(matches!(**right, LayoutNode::Pane { id: 2, .. }));
        }
        _ => panic!("expected a split at the root"),
    }

    // Splitting pane 2 vertically nests a split under the second slot.
    tm.split(SplitDirection::Vertical);
    assert_eq!(tm.get_pane_count(), 3);
    assert_eq!(tm.focused_pane_id, 3);
    match &tm.root {
        LayoutNode::Split { right, .. } => match &**right {
            LayoutNode::Split { direction, left: rl, right: rr, .. } => {
                assert!(matches!(direction, SplitDirection::Vertical));
                assert!(matches!(**rl, LayoutNode::Pane { id: 2, .. }));
                assert!(matches!(**rr, LayoutNode::Pane { id: 3, .. }));
            }
            _ => panic!("expected a nested split"),
        },
        _ => panic!("expected a split at the root"),
    }

    // Closing pane 3 collapses its parent split back into pane 2, and the
    // survivors are relabelled 1 and 2.
    tm.close_focused_pane();
    assert_eq!(tm.get_pane_count(), 2);
    let mut ids = Vec::new();
    pane_ids_in_order(&tm.root, &mut ids);
    assert_eq!(ids, vec![1, 2]);
    assert_eq!(tm.next_id, 3);
    assert_eq!(tm.focused_pane_id, 1);
}

#[test]
fn split_stops_at_ten_panes() {
    let mut tm = TilingManager::new();
    for _ in 0..20 {
        tm.split(SplitDirection::Horizontal);
    }
    assert_eq!(tm.get_pane_count(), 10);
    let before = tui_tiling::codec::serialize(&tm);
    tm.split(SplitDirection::Vertical);
    let after = tui_tiling::codec::serialize(&tm);
    assert_eq!(tm.get_pane_count(), 10);
    // The eleventh split is a no-op: the tree is byte-for-byte unchanged.
    assert_eq!(before, after);
}

#[test]
fn close_on_single_pane_is_noop() {
    let mut tm = TilingManager::new();
    tm.close_focused_pane();
    assert_eq!(tm.get_pane_count(), 1);
    assert_eq!(tm.focused_pane_id, 1);
    assert_eq!(tm.next_id, 2);
    assert!(matches!(tm.root, LayoutNode::Pane { id: 1, .. }));
}

#[test]
fn close_renumbers_ids_densely() {
    let mut tm = TilingManager::new();
    for _ in 0..4 {
        tm.split(SplitDirection::Horizontal);
    }
    assert_eq!(tm.get_pane_count(), 5);
    // Close the focused pane twice; ids must stay exactly 1..=count in
    // traversal order, and the focus must stay in that range.
    for expected in [4usize, 3usize] {
        tm.close_focused_pane();
        assert_eq!(tm.get_pane_count(), expected);
        let mut ids = Vec::new();
        pane_ids_in_order(&tm.root, &mut ids);
        let dense: Vec<usize> = (1..=expected).collect();
        assert_eq!(ids, dense);
        assert!(tm.focused_pane_id >= 1 && tm.focused_pane_id <= expected);
        assert_eq!(tm.next_id, expected + 1);
    }
}

#[test]
fn focus_next_cycles_through_panes() {
    let mut tm = TilingManager::new();
    tm.split(SplitDirection::Horizontal);
    tm.split(SplitDirection::Horizontal);
    assert_eq!(tm.focused_pane_id, 3);
    tm.focus_next();
    assert_eq!(tm.focused_pane_id, 1);
    tm.focus_next();
    assert_eq!(tm.focused_pane_id, 2);
    tm.focus_next();
    assert_eq!(tm.focused_pane_id, 3);
}

#[test]
fn focus_next_on_single_pane_stays() {
    let mut tm = TilingManager::new();
    tm.focus_next();
    assert_eq!(tm.focused_pane_id, 1);
}

#[test]
fn set_current_view_changes_only_focused_pane() {
    let mut tm = TilingManager::new();
    tm.split(SplitDirection::Horizontal);
    tm.set_current_view(ViewType::Polar);
    assert!(matches!(find_view_type_recursive(&tm.root, 2), Some(ViewType::Polar)));
    assert!(matches!(find_view_type_recursive(&tm.root, 1), Some(ViewType::Empty)));
    assert!(find_view_type_recursive(&tm.root, 7).is_none());
}

#[test]
fn set_split_ratio_clamps_and_ignores_stale_paths() {
    let mut tm = TilingManager::new();
    tm.split(SplitDirection::Horizontal);
    tm.set_split_ratio(&[], 95);
    match &tm.root {
        LayoutNode::Split { ratio, .. } => assert_eq!(*ratio, 90),
        _ => panic!("expected a split at the root"),
    }
    tm.set_split_ratio(&[], 3);
    match &tm.root {
        LayoutNode::Split { ratio, .. } => assert_eq!(*ratio, 10),
        _ => panic!("expected a split at the root"),
    }
    tm.set_split_ratio(&[], 42);
    // A stale path resolves to nothing and changes nothing.
    tm.set_split_ratio(&[0, 1, 0], 70);
    tm.set_split_ratio(&[5], 70);
    match &tm.root {
        LayoutNode::Split { ratio, .. } => assert_eq!(*ratio, 42),
        _ => panic!("expected a split at the root"),
    }
}

#[test]
fn adjust_split_ratio_converges_to_the_bounds() {
    let mut tm = TilingManager::new();
    tm.split(SplitDirection::Vertical);
    tm.adjust_split_ratio(&[], -1000);
    match &tm.root {
        LayoutNode::Split { ratio, .. } => assert_eq!(*ratio, 10),
        _ => panic!("expected a split at the root"),
    }
    tm.adjust_split_ratio(&[], -1000);
    match &tm.root {
        LayoutNode::Split { ratio, .. } => assert_eq!(*ratio, 10),
        _ => panic!("expected a split at the root"),
    }
    tm.adjust_split_ratio(&[], 1000);
    match &tm.root {
        LayoutNode::Split { ratio, .. } => assert_eq!(*ratio, 90),
        _ => panic!("expected a split at the root"),
    }
    tm.adjust_split_ratio(&[], 1000);
    match &tm.root {
        LayoutNode::Split { ratio, .. } => assert_eq!(*ratio, 90),
        _ => panic!("expected a split at the root"),
    }
    tm.adjust_split_ratio(&[], -5);
    match &tm.root {
        LayoutNode::Split { ratio, .. } => assert_eq!(*ratio, 85),
        _ => panic!("expected a split at the root"),
    }
}

#[test]
fn focus_pane_only_moves_to_existing_ids() {
    let mut tm = TilingManager::new();
    tm.split(SplitDirection::Horizontal);
    tm.focus_pane(1);
    assert_eq!(tm.focused_pane_id, 1);
    tm.focus_pane(9);
    assert_eq!(tm.focused_pane_id, 1);
}

#[test]
fn view_behavior_classifies_views() {
    assert!(ViewType::Dashboard.is_temporal());
    assert!(ViewType::Spectrogram.is_temporal());
    assert!(ViewType::Phase.is_temporal());
    assert!(!ViewType::Polar.is_temporal());
    assert!(ViewType::Polar.is_spatial());
    assert!(ViewType::Isometric.is_spatial());
    assert!(!ViewType::Empty.is_spatial());
    assert!(!ViewType::Camera.is_temporal());
}

#[test]
fn view_labels_are_stable() {
    assert_eq!(ViewType::Empty.as_str(), "Empty Pane");
    assert_eq!(ViewType::Dashboard.as_str(), "Dashboard Stats");
    assert_eq!(ViewType::Polar.as_str(), "Polar Scatter");
    assert_eq!(ViewType::Isometric.as_str(), "3D Isometric");
    assert_eq!(ViewType::Spectrogram.as_str(), "Spectrogram");
    assert_eq!(ViewType::Phase.as_str(), "Phase Plot");
    assert_eq!(ViewType::Camera.as_str(), "Camera Feed");
    assert_eq!(ViewType::RawScatter.as_str(), "Multipath Scatter");
}

#[test]
fn node_ratio_methods_follow_paths() {
    let mut tm = TilingManager::new();
    tm.split(SplitDirection::Horizontal);
    tm.split(SplitDirection::Vertical);
    // The nested split sits under the second slot of the root.
    tm.root.set_ratio_recursive(&[1], 80);
    match &tm.root {
        LayoutNode::Split { ratio, right, .. } => {
            assert_eq!(*ratio, 50);
            match &**right {
                LayoutNode::Split { ratio, .. } => assert_eq!(*ratio, 80),
                _ => panic!("expected a nested split"),
            }
        }
        _ => panic!("expected a split at the root"),
    }
    tm.root.adjust_ratio_recursive(&[1], -25);
    match &tm.root {
        LayoutNode::Split { right, .. } => match &**right {
            LayoutNode::Split { ratio, .. } => assert_eq!(*ratio, 55),
            _ => panic!("expected a nested split"),
        },
        _ => panic!("expected a split at the root"),
    }
}

#[test]
fn pane_count_matches_direct_traversal() {
    let mut tm = TilingManager::new();
    for n in 2..=6usize {
        tm.split(if n % 2 == 0 {
            SplitDirection::Horizontal
        } else {
            SplitDirection::Vertical
        });
        let mut ids = Vec::new();
        pane_ids_in_order(&tm.root, &mut ids);
        assert_eq!(tm.get_pane_count(), ids.len());
        assert_eq!(ids.len(), n);
    }
}
