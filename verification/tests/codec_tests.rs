//! Tests for the persistence format: exact bytes, the round trip, and the
//! validation and repair of hand-edited input.

use tui_tiling::codec::{deserialize, serialize};
use tui_tiling::layout::{LayoutNode, SplitDirection, ThemeType, TilingManager, ViewType};

fn pane(id: usize, view: ViewType) -> LayoutNode {
    LayoutNode::Pane { id, view }
}

fn split(direction: SplitDirection, ratio: u16, left: LayoutNode, right: LayoutNode) -> LayoutNode {
    LayoutNode::Split { direction, ratio, left: Box::new(left), right: Box::new(right) }
}

#[test]
fn startup_layout_serializes_to_fixed_bytes() {
    let tm = TilingManager::new();
    let bytes = serialize(&tm);
    assert_eq!(bytes, b"f 1\nn 2\nd 0\nt -\np 1 e\n".to_vec());
}

#[test]
fn split_layout_serializes_views_and_ratio() {
    let tm = TilingManager {
        root: split(
            SplitDirection::Horizontal,
            42,
            pane(1, ViewType::Polar),
            pane(2, ViewType::Spectrogram),
        ),
        focused_pane_id: 2,
        next_id: 3,
        is_default: true,
        theme_variant: Some(ThemeType::Nordic),
    };
    let bytes = serialize(&tm);
    assert_eq!(bytes, b"f 2\nn 3\nd 1\nt n\n(h 42 p 1 p p 2 s)\n".to_vec());
}

#[test]
fn round_trip_preserves_bytes() {
    let mut tm = TilingManager::new();
    tm.split(SplitDirection::Horizontal);
    tm.split(SplitDirection::Vertical);
    tm.set_current_view(ViewType::Phase);
    tm.set_split_ratio(&[], 67);
    let first = serialize(&tm);
    let reloaded = deserialize(&first).expect("saved layouts load back");
    let second = serialize(&reloaded);
    assert_eq!(first, second);
    assert_eq!(reloaded.focused_pane_id, tm.focused_pane_id);
    assert_eq!(reloaded.next_id, tm.next_id);
    assert_eq!(reloaded.is_default, tm.is_default);
}

#[test]
fn duplicate_pane_ids_are_rejected() {
    // A template whose tree names pane 1 twice must never be accepted
    // verbatim.
    let tm = TilingManager {
        root: split(
            SplitDirection::Horizontal,
            50,
            pane(1, ViewType::Empty),
            pane(1, ViewType::Empty),
        ),
        focused_pane_id: 1,
        next_id: 2,
        is_default: false,
        theme_variant: None,
    };
    let bytes = serialize(&tm);
    assert_eq!(bytes, b"f 1\nn 2\nd 0\nt -\n(h 50 p 1 e p 1 e)\n".to_vec());
    assert!(deserialize(&bytes).is_none());
}

#[test]
fn zero_pane_id_is_rejected() {
    assert!(deserialize(&b"f 1\nn 2\nd 0\nt -\np 0 e\n".to_vec()).is_none());
}

#[test]
fn out_of_range_ratio_is_clamped_on_load() {
    let loaded = deserialize(&b"f 1\nn 3\nd 0\nt -\n(v 99 p 1 e p 2 e)\n".to_vec())
        .expect("a legal tree with a wild ratio is repaired");
    match &loaded.root {
        LayoutNode::Split { ratio, .. } => assert_eq!(*ratio, 90),
        _ => panic!("expected a split at the root"),
    }
    let loaded = deserialize(&b"f 1\nn 3\nd 0\nt -\n(v 2 p 1 e p 2 e)\n".to_vec()).unwrap();
    match &loaded.root {
        LayoutNode::Split { ratio, .. } => assert_eq!(*ratio, 10),
        _ => panic!("expected a split at the root"),
    }
}

#[test]
fn stale_focus_is_repaired_to_first_pane() {
    let loaded = deserialize(&b"f 9\nn 4\nd 0\nt -\n(h 50 p 2 e p 3 e)\n".to_vec())
        .expect("a stale focus is repaired");
    assert_eq!(loaded.focused_pane_id, 2);
}

#[test]
fn low_next_id_is_repaired_past_every_pane() {
    let loaded = deserialize(&b"f 5\nn 1\nd 0\nt -\np 5 d\n".to_vec())
        .expect("an inconsistent next id is repaired");
    assert_eq!(loaded.next_id, 6);
    assert_eq!(loaded.focused_pane_id, 5);
}

#[test]
fn malformed_templates_are_rejected() {
    // Wrong magic line.
    assert!(deserialize(&b"x 1\nn 2\nd 0\nt -\np 1 e\n".to_vec()).is_none());
    // Truncated input.
    assert!(deserialize(&b"f 1\nn 2\nd 0\nt -\n".to_vec()).is_none());
    // Unknown view tag.
    assert!(deserialize(&b"f 1\nn 2\nd 0\nt -\np 1 z\n".to_vec()).is_none());
    // Unknown theme tag.
    assert!(deserialize(&b"f 1\nn 2\nd 0\nt q\np 1 e\n".to_vec()).is_none());
    // A split missing its closing parenthesis.
    assert!(deserialize(&b"f 1\nn 3\nd 0\nt -\n(h 50 p 1 e p 2 e\n".to_vec()).is_none());
    // Trailing bytes after the tree line.
    assert!(deserialize(&b"f 1\nn 2\nd 0\nt -\np 1 e\nx".to_vec()).is_none());
    // A pane id too large for the machine.
    assert!(
        deserialize(&b"f 1\nn 2\nd 0\nt -\np 99999999999999999999999999 e\n".to_vec()).is_none()
    );
    // Empty input.
    assert!(deserialize(&Vec::new()).is_none());
}

#[test]
fn theme_tags_round_trip() {
    for (variant, tag) in [
        (None, b'-'),
        (Some(ThemeType::Dark), b'd'),
        (Some(ThemeType::Light), b'l'),
        (Some(ThemeType::Nordic), b'n'),
        (Some(ThemeType::Gruvbox), b'g'),
        (Some(ThemeType::Catppuccin), b'c'),
    ] {
        let mut tm = TilingManager::new();
        tm.theme_variant = variant;
        let bytes = serialize(&tm);
        assert_eq!(bytes[14], tag);
        let loaded = deserialize(&bytes).unwrap();
        assert_eq!(loaded.theme_variant, variant);
    }
}
