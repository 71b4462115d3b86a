//! The geometry solver: turns the layout tree plus an outer rectangle into
//! per-pane rectangles and per-split handle strips, each handle tagged with
//! the path of its split. The pane rectangles always tile the outer
//! rectangle exactly, with no gap and no overlap.

use vstd::prelude::*;
use crate::layout::{LayoutNode, SplitDirection};

verus! {

/// An axis-aligned screen rectangle in terminal cells.
#[derive(Clone, Copy, PartialEq, Eq, Structural, Debug)]
pub struct Rect {
    pub x: u16,
    pub y: u16,
    pub width: u16,
    pub height: u16,
}

/// A pane's id together with the rectangle it was given this frame.
#[derive(Clone, Copy, PartialEq, Eq, Structural, Debug)]
pub struct PaneRegion {
    pub id: usize,
    pub rect: Rect,
}

/// A split handle: the one-cell-thick strip at a split boundary, tagged
/// with the split's path, axis, ratio at render time, and the container's
/// length along the axis.
pub struct SplitterRegion {
    pub path: Vec<usize>,
    pub rect: Rect,
    pub direction: SplitDirection,
    pub ratio: u16,
    pub container: u16,
}

/// Specification-level image of a `SplitterRegion`.
pub struct SplitterInfo {
    pub path: Seq<usize>,
    pub rect: Rect,
    pub direction: SplitDirection,
    pub ratio: u16,
    pub container: u16,
}

/// Whether the cell at `(px, py)` lies inside `r`.
pub open spec fn in_rect(r: Rect, px: int, py: int) -> bool {
    &&& r.x <= px < r.x + r.width
    &&& r.y <= py < r.y + r.height
}

/// A rectangle fits inside `u16` coordinate space without wrapping.
pub open spec fn rect_bounded(r: Rect) -> bool {
    &&& r.x + r.width <= u16::MAX
    &&& r.y + r.height <= u16::MAX
}

/// Length of the first part when a span of `len` cells is divided at
/// `ratio` percent: the floored share, never more than the whole span.
pub open spec fn first_span(len: int, ratio: int) -> int {
    let raw = len * ratio / 100;
    if raw > len {
        len
    } else {
        raw
    }
}

/// The two sub-rectangles a split divides its container into. Their sizes
/// along the axis are `first_span` and the exact remainder, so they always
/// sum to the container's length.
pub open spec fn split_rects(area: Rect, direction: SplitDirection, ratio: u16) -> (Rect, Rect) {
    match direction {
        SplitDirection::Horizontal => {
            let w1 = first_span(area.width as int, ratio as int);
            (
                Rect { x: area.x, y: area.y, width: w1 as u16, height: area.height },
                Rect {
                    x: (area.x + w1) as u16,
                    y: area.y,
                    width: (area.width - w1) as u16,
                    height: area.height,
                },
            )
        },
        SplitDirection::Vertical => {
            let h1 = first_span(area.height as int, ratio as int);
            (
                Rect { x: area.x, y: area.y, width: area.width, height: h1 as u16 },
                Rect {
                    x: area.x,
                    y: (area.y + h1) as u16,
                    width: area.width,
                    height: (area.height - h1) as u16,
                },
            )
        },
    }
}

/// The one-cell-thick handle strip at the boundary between the two parts.
pub open spec fn splitter_strip(area: Rect, direction: SplitDirection, ratio: u16) -> Rect {
    match direction {
        SplitDirection::Horizontal => Rect {
            x: (area.x + first_span(area.width as int, ratio as int)) as u16,
            y: area.y,
            width: 1,
            height: area.height,
        },
        SplitDirection::Vertical => Rect {
            x: area.x,
            y: (area.y + first_span(area.height as int, ratio as int)) as u16,
            width: area.width,
            height: 1,
        },
    }
}

/// The container's length along the split axis.
pub open spec fn container_len(area: Rect, direction: SplitDirection) -> u16 {
    match direction {
        SplitDirection::Horizontal => area.width,
        SplitDirection::Vertical => area.height,
    }
}

/// The pane rectangles the solver emits for `node` rendered into `area`,
/// in traversal order.
pub open spec fn pane_layout(node: LayoutNode, area: Rect) -> Seq<PaneRegion>
    decreases node,
{
    match node {
        LayoutNode::Pane { id, .. } => seq![PaneRegion { id, rect: area }],
        LayoutNode::Split { direction, ratio, left, right } => {
            let parts = split_rects(area, direction, ratio);
            pane_layout(*left, parts.0) + pane_layout(*right, parts.1)
        },
    }
}

/// The splitter handles the solver emits for `node` rendered into `area`,
/// each tagged with its path from the root.
pub open spec fn splitter_layout(node: LayoutNode, area: Rect, path: Seq<usize>) -> Seq<
    SplitterInfo,
>
    decreases node,
{
    match node {
        LayoutNode::Pane { .. } => Seq::empty(),
        LayoutNode::Split { direction, ratio, left, right } => {
            let parts = split_rects(area, direction, ratio);
            seq![
                SplitterInfo {
                    path,
                    rect: splitter_strip(area, direction, ratio),
                    direction,
                    ratio,
                    container: container_len(area, direction),
                },
            ] + splitter_layout(*left, parts.0, path.push(0)) + splitter_layout(
                *right,
                parts.1,
                path.push(1),
            )
        },
    }
}

/// An executable splitter record carries exactly the data of its
/// specification-level image.
pub open spec fn splitter_matches(s: SplitterRegion, info: SplitterInfo) -> bool {
    &&& s.path@ == info.path
    &&& s.rect == info.rect
    &&& s.direction == info.direction
    &&& s.ratio == info.ratio
    &&& s.container == info.container
}

/// The first part of a divided span is between 0 and the whole span.
pub proof fn lemma_first_span_bounds(len: int, ratio: int)
    requires
        0 <= len,
        0 <= ratio,
    ensures
        0 <= first_span(len, ratio) <= len,
{
    let prod = len * ratio;
    assert(len * ratio >= 0) by (nonlinear_arith)
        requires
            len >= 0,
            ratio >= 0,
    ;
    vstd::arithmetic::div_mod::lemma_div_pos_is_pos(prod, 100);
}

/// The two parts of a split partition their container: the parts stay in
/// bounds, every cell of the container is in exactly one part.
pub proof fn lemma_split_rects_partition(area: Rect, direction: SplitDirection, ratio: u16)
    requires
        rect_bounded(area),
    ensures
        ({
            let parts = split_rects(area, direction, ratio);
            &&& rect_bounded(parts.0)
            &&& rect_bounded(parts.1)
            &&& forall|px: int, py: int|
                #[trigger] in_rect(area, px, py) <==> (in_rect(parts.0, px, py) || in_rect(
                    parts.1,
                    px,
                    py,
                ))
            &&& forall|px: int, py: int|
                !(#[trigger] in_rect(parts.0, px, py) && #[trigger] in_rect(parts.1, px, py))
        }),
{
    match direction {
        SplitDirection::Horizontal => {
            lemma_first_span_bounds(area.width as int, ratio as int);
        },
        SplitDirection::Vertical => {
            lemma_first_span_bounds(area.height as int, ratio as int);
        },
    }
}

/// The tiling guarantee: for any tree and any outer rectangle, the emitted
/// pane rectangles lie inside the outer rectangle, cover every cell of it,
/// and are pairwise disjoint.
pub proof fn lemma_panes_tile(node: LayoutNode, area: Rect)
    requires
        rect_bounded(area),
    ensures
        ({
            let regions = pane_layout(node, area);
            &&& forall|i: int, px: int, py: int|
                0 <= i < regions.len() && #[trigger] in_rect(regions[i].rect, px, py)
                    ==> in_rect(area, px, py)
            &&& forall|px: int, py: int|
                #[trigger] in_rect(area, px, py) ==> exists|i: int|
                    0 <= i < regions.len() && in_rect(regions[i].rect, px, py)
            &&& forall|i: int, j: int, px: int, py: int|
                #![trigger in_rect(regions[i].rect, px, py), in_rect(regions[j].rect, px, py)]
                0 <= i < regions.len() && 0 <= j < regions.len() && i != j && in_rect(
                    regions[i].rect,
                    px,
                    py,
                ) ==> !in_rect(regions[j].rect, px, py)
        }),
    decreases node,
{
    let regions = pane_layout(node, area);
    match node {
        LayoutNode::Pane { .. } => {
            assert(regions.len() == 1);
            assert(regions[0].rect == area);
            assert forall|px: int, py: int| #[trigger] in_rect(area, px, py) implies exists|i: int|
                0 <= i < regions.len() && in_rect(regions[i].rect, px, py) by {
                assert(in_rect(regions[0].rect, px, py));
            }
        },
        LayoutNode::Split { direction, ratio, left, right } => {
            let parts = split_rects(area, direction, ratio);
            lemma_split_rects_partition(area, direction, ratio);
            lemma_panes_tile(*left, parts.0);
            lemma_panes_tile(*right, parts.1);
            let rl = pane_layout(*left, parts.0);
            let rr = pane_layout(*right, parts.1);
            assert(regions == rl + rr);
            assert forall|i: int, px: int, py: int|
                0 <= i < regions.len() && #[trigger] in_rect(regions[i].rect, px, py)
                    implies in_rect(area, px, py) by {
                if i < rl.len() {
                    assert(regions[i] == rl[i]);
                    assert(in_rect(parts.0, px, py));
                } else {
                    assert(regions[i] == rr[i - rl.len()]);
                    assert(in_rect(parts.1, px, py));
                }
            }
            assert forall|px: int, py: int| #[trigger] in_rect(area, px, py) implies exists|i: int|
                0 <= i < regions.len() && in_rect(regions[i].rect, px, py) by {
                if in_rect(parts.0, px, py) {
                    let i = choose|i: int| 0 <= i < rl.len() && in_rect(rl[i].rect, px, py);
                    assert(regions[i] == rl[i]);
                    assert(0 <= i < regions.len() && in_rect(regions[i].rect, px, py));
                } else {
                    assert(in_rect(parts.1, px, py));
                    let i = choose|i: int| 0 <= i < rr.len() && in_rect(rr[i].rect, px, py);
                    assert(regions[rl.len() + i] == rr[i]);
                    assert(0 <= rl.len() + i < regions.len() && in_rect(
                        regions[rl.len() + i].rect,
                        px,
                        py,
                    ));
                }
            }
            assert forall|i: int, j: int, px: int, py: int|
                #![trigger in_rect(regions[i].rect, px, py), in_rect(regions[j].rect, px, py)]
                0 <= i < regions.len() && 0 <= j < regions.len() && i != j && in_rect(
                    regions[i].rect,
                    px,
                    py,
                ) implies !in_rect(regions[j].rect, px, py) by {
                if in_rect(regions[j].rect, px, py) {
                    if i < rl.len() && j < rl.len() {
                        assert(regions[i] == rl[i]);
                        assert(regions[j] == rl[j]);
                    } else if i >= rl.len() && j >= rl.len() {
                        assert(regions[i] == rr[i - rl.len()]);
                        assert(regions[j] == rr[j - rl.len()]);
                    } else if i < rl.len() {
                        assert(regions[i] == rl[i]);
                        assert(regions[j] == rr[j - rl.len()]);
                        assert(in_rect(parts.0, px, py));
                        assert(in_rect(parts.1, px, py));
                    } else {
                        assert(regions[i] == rr[i - rl.len()]);
                        assert(regions[j] == rl[j]);
                        assert(in_rect(parts.0, px, py));
                        assert(in_rect(parts.1, px, py));
                    }
                }
            }
        },
    }
}

/// The ids of the emitted pane rectangles are the tree's pane ids, in the
/// same traversal order.
pub proof fn lemma_pane_layout_ids(node: LayoutNode, area: Rect)
    ensures
        pane_layout(node, area).len() == node.pane_count(),
        forall|i: int|
            0 <= i < pane_layout(node, area).len() ==> #[trigger] pane_layout(node, area)[i].id
                as int == node.pane_ids()[i],
    decreases node,
{
    match node {
        LayoutNode::Pane { .. } => {},
        LayoutNode::Split { direction, ratio, left, right } => {
            let parts = split_rects(area, direction, ratio);
            lemma_pane_layout_ids(*left, parts.0);
            lemma_pane_layout_ids(*right, parts.1);
            let rl = pane_layout(*left, parts.0);
            let rr = pane_layout(*right, parts.1);
            assert(pane_layout(node, area) == rl + rr);
            assert(node.pane_ids() == left.pane_ids() + right.pane_ids());
            assert forall|i: int| 0 <= i < pane_layout(node, area).len() implies #[trigger] pane_layout(
                node,
                area,
            )[i].id as int == node.pane_ids()[i] by {
                if i < rl.len() {
                    assert(pane_layout(node, area)[i] == rl[i]);
                } else {
                    assert(pane_layout(node, area)[i] == rr[i - rl.len()]);
                }
            }
        },
    }
}

/// Computes the two sub-rectangles of a split container.
fn split_rect_parts(area: Rect, direction: SplitDirection, ratio: u16) -> (r: (Rect, Rect))
    requires
        rect_bounded(area),
    ensures
        r == split_rects(area, direction, ratio),
        rect_bounded(r.0),
        rect_bounded(r.1),
{
    proof {
        lemma_split_rects_partition(area, direction, ratio);
    }
    match direction {
        SplitDirection::Horizontal => {
            proof {
                lemma_first_span_bounds(area.width as int, ratio as int);
                assert((area.width as int) * (ratio as int) <= 65535 * 65535) by (nonlinear_arith)
                    requires
                        area.width <= 65535,
                        ratio <= 65535,
                ;
            }
            let raw: u32 = (area.width as u32) * (ratio as u32) / 100;
            let w1: u16 = if raw > area.width as u32 {
                area.width
            } else {
                raw as u16
            };
            (
                Rect { x: area.x, y: area.y, width: w1, height: area.height },
                Rect {
                    x: area.x + w1,
                    y: area.y,
                    width: area.width - w1,
                    height: area.height,
                },
            )
        },
        SplitDirection::Vertical => {
            proof {
                lemma_first_span_bounds(area.height as int, ratio as int);
                assert((area.height as int) * (ratio as int) <= 65535 * 65535) by (nonlinear_arith)
                    requires
                        area.height <= 65535,
                        ratio <= 65535,
                ;
            }
            let raw: u32 = (area.height as u32) * (ratio as u32) / 100;
            let h1: u16 = if raw > area.height as u32 {
                area.height
            } else {
                raw as u16
            };
            (
                Rect { x: area.x, y: area.y, width: area.width, height: h1 },
                Rect {
                    x: area.x,
                    y: area.y + h1,
                    width: area.width,
                    height: area.height - h1,
                },
            )
        },
    }
}

/// Copies a path so a splitter record can own its tag.
pub(crate) fn copy_path(p: &Vec<usize>) -> (r: Vec<usize>)
    ensures
        r@ == p@,
{
    let mut r: Vec<usize> = Vec::new();
    let mut i: usize = 0;
    while i < p.len()
        invariant
            i <= p@.len(),
            r@ == p@.subrange(0, i as int),
        decreases p@.len() - i,
    {
        r.push(p[i]);
        proof {
            assert(r@ =~= p@.subrange(0, i as int + 1));
        }
        i += 1;
    }
    proof {
        assert(r@ =~= p@);
    }
    r
}

/// Walks the tree, appending the pane rectangle of every leaf and the
/// handle strip of every split to the caller's caches.
fn solve_rec(
    node: &LayoutNode,
    area: Rect,
    path: &mut Vec<usize>,
    panes: &mut Vec<PaneRegion>,
    splits: &mut Vec<SplitterRegion>,
)
    requires
        rect_bounded(area),
    ensures
        final(path)@ == old(path)@,
        final(panes)@ == old(panes)@ + pane_layout(*node, area),
        final(splits)@.len() == old(splits)@.len() + splitter_layout(
            *node,
            area,
            old(path)@,
        ).len(),
        forall|i: int|
            0 <= i < old(splits)@.len() ==> final(splits)@[i] == old(splits)@[i],
        forall|i: int|
            0 <= i < splitter_layout(*node, area, old(path)@).len() ==> splitter_matches(
                final(splits)@[old(splits)@.len() + i],
                #[trigger] splitter_layout(*node, area, old(path)@)[i],
            ),
    decreases *node,
{
    match node {
        LayoutNode::Pane { id, view: _ } => {
            panes.push(PaneRegion { id: *id, rect: area });
            proof {
                assert(panes@ =~= old(panes)@ + pane_layout(*node, area));
            }
        },
        LayoutNode::Split { direction, ratio, left, right } => {
            let parts = split_rect_parts(area, *direction, *ratio);
            let strip = match *direction {
                SplitDirection::Horizontal => Rect {
                    x: parts.1.x,
                    y: area.y,
                    width: 1,
                    height: area.height,
                },
                SplitDirection::Vertical => Rect {
                    x: area.x,
                    y: parts.1.y,
                    width: area.width,
                    height: 1,
                },
            };
            let container = match *direction {
                SplitDirection::Horizontal => area.width,
                SplitDirection::Vertical => area.height,
            };
            let tag = copy_path(path);
            splits.push(
                SplitterRegion {
                    path: tag,
                    rect: strip,
                    direction: *direction,
                    ratio: *ratio,
                    container,
                },
            );
            let ghost p0 = old(path)@;
            let ghost splits1 = splits@;
            let ghost whole = splitter_layout(*node, area, p0);
            let ghost sl = splitter_layout(**left, parts.0, p0.push(0));
            let ghost sr = splitter_layout(**right, parts.1, p0.push(1));
            proof {
                assert(strip == splitter_strip(area, *direction, *ratio));
                assert(whole == seq![
                    SplitterInfo {
                        path: p0,
                        rect: splitter_strip(area, *direction, *ratio),
                        direction: *direction,
                        ratio: *ratio,
                        container: container_len(area, *direction),
                    },
                ] + sl + sr);
                assert(splitter_matches(splits@[old(splits)@.len() as int], whole[0]));
            }
            path.push(0);
            solve_rec(&**left, parts.0, path, panes, splits);
            let ghost splits2 = splits@;
            let _ = path.pop();
            proof {
                assert(path@ =~= p0);
            }
            path.push(1);
            solve_rec(&**right, parts.1, path, panes, splits);
            let _ = path.pop();
            proof {
                assert(path@ =~= p0);
                assert(panes@ =~= old(panes)@ + pane_layout(*node, area));
                let base = old(splits)@.len() as int;
                assert forall|i: int| 0 <= i < whole.len() implies splitter_matches(
                    splits@[base + i],
                    #[trigger] whole[i],
                ) by {
                    if i == 0 {
                        assert(splits@[base] == splits1[base]);
                        assert(splitter_matches(splits1[base], whole[0]));
                    } else if i <= sl.len() {
                        assert(whole[i] == sl[i - 1]);
                        assert(splits@[base + i] == splits2[base + i]);
                        assert(splitter_matches(splits2[splits1.len() + (i - 1)], sl[i - 1]));
                    } else {
                        assert(whole[i] == sr[i - 1 - sl.len()]);
                        assert(splitter_matches(
                            splits@[splits2.len() + (i - 1 - sl.len())],
                            sr[i - 1 - sl.len()],
                        ));
                    }
                }
            }
        },
    }
}

/// Runs the geometry solver for one frame: replaces the previous caches by
/// the pane rectangles and splitter handles of `node` laid out in `area`.
pub fn solve_layout(node: &LayoutNode, area: Rect) -> (r: (Vec<PaneRegion>, Vec<
    SplitterRegion,
>))
    requires
        rect_bounded(area),
    ensures
        r.0@ == pane_layout(*node, area),
        r.1@.len() == splitter_layout(*node, area, Seq::empty()).len(),
        forall|i: int|
            0 <= i < r.1@.len() ==> splitter_matches(
                r.1@[i],
                #[trigger] splitter_layout(*node, area, Seq::empty())[i],
            ),
{
    let mut panes: Vec<PaneRegion> = Vec::new();
    let mut splits: Vec<SplitterRegion> = Vec::new();
    let mut path: Vec<usize> = Vec::new();
    solve_rec(node, area, &mut path, &mut panes, &mut splits);
    proof {
        assert(panes@ =~= pane_layout(*node, area));
    }
    (panes, splits)
}

/// How much detail a pane of a given size can carry.
#[derive(Clone, Copy, PartialEq, Eq, Structural, Debug)]
pub enum LayoutDensity {
    Tiny,
    Compact,
    Normal,
}

/// The density a rectangle of this size is rendered at.
pub open spec fn density_of(area: Rect) -> LayoutDensity {
    if area.width < 20 || area.height < 6 {
        LayoutDensity::Tiny
    } else if area.width < 45 || area.height < 15 {
        LayoutDensity::Compact
    } else {
        LayoutDensity::Normal
    }
}

/// Picks the layout density for a pane rectangle.
pub fn get_density(area: Rect) -> (r: LayoutDensity)
    ensures
        r == density_of(area),
{
    if area.width < 20 || area.height < 6 {
        LayoutDensity::Tiny
    } else if area.width < 45 || area.height < 15 {
        LayoutDensity::Compact
    } else {
        LayoutDensity::Normal
    }
}

} // verus!
