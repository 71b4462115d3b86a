//! The pane/split tree and the mutations that keep it valid: split, close,
//! refocus, view assignment and ratio adjustment.

use vstd::prelude::*;

verus! {

/// Axis along which a split node divides its container.
#[derive(Clone, Copy, PartialEq, Eq, Structural, Debug)]
pub enum SplitDirection {
    Horizontal,
    Vertical,
}

/// Tag naming what a pane displays. The layout engine never branches on it
/// except to pass it through.
#[derive(Clone, Copy, PartialEq, Eq, Structural, Debug)]
pub enum ViewType {
    Empty,
    Dashboard,
    Polar,
    Isometric,
    Spectrogram,
    Phase,
    Camera,
    RawScatter,
}

/// Persisted display preference; opaque to the layout engine itself.
#[derive(Clone, Copy, PartialEq, Eq, Structural, Debug)]
pub enum ThemeType {
    Dark,
    Light,
    Nordic,
    Gruvbox,
    Catppuccin,
}

impl ViewType {
    /// The label shown for this view in titles and selectors.
    pub fn as_str(&self) -> (r: &'static str)
        ensures
            (match self {
                ViewType::Empty => r@ == "Empty Pane"@,
                ViewType::Dashboard => r@ == "Dashboard Stats"@,
                ViewType::Polar => r@ == "Polar Scatter"@,
                ViewType::Isometric => r@ == "3D Isometric"@,
                ViewType::Spectrogram => r@ == "Spectrogram"@,
                ViewType::Phase => r@ == "Phase Plot"@,
                ViewType::Camera => r@ == "Camera Feed"@,
                ViewType::RawScatter => r@ == "Multipath Scatter"@,
            }),
    {
        match self {
            ViewType::Empty => "Empty Pane",
            ViewType::Dashboard => "Dashboard Stats",
            ViewType::Polar => "Polar Scatter",
            ViewType::Isometric => "3D Isometric",
            ViewType::Spectrogram => "Spectrogram",
            ViewType::Phase => "Phase Plot",
            ViewType::Camera => "Camera Feed",
            ViewType::RawScatter => "Multipath Scatter",
        }
    }
}

/// A node of the layout tree: either a visible pane or a binary split.
pub enum LayoutNode {
    Pane { id: usize, view: ViewType },
    Split {
        direction: SplitDirection,
        ratio: u16,
        left: Box<LayoutNode>,
        right: Box<LayoutNode>,
    },
}

impl LayoutNode {
    /// Ids of all panes, in left-to-right depth-first traversal order.
    pub open spec fn pane_ids(self) -> Seq<int>
        decreases self,
    {
        match self {
            LayoutNode::Pane { id, .. } => seq![id as int],
            LayoutNode::Split { left, right, .. } => left.pane_ids() + right.pane_ids(),
        }
    }

    /// Views of all panes, in the same traversal order as `pane_ids`.
    pub open spec fn pane_views(self) -> Seq<ViewType>
        decreases self,
    {
        match self {
            LayoutNode::Pane { view, .. } => seq![view],
            LayoutNode::Split { left, right, .. } => left.pane_views() + right.pane_views(),
        }
    }

    /// Number of pane leaves.
    pub open spec fn pane_count(self) -> nat {
        self.pane_ids().len()
    }

    /// Whether a pane with the given id occurs somewhere in the tree.
    pub open spec fn contains_pane(self, id: int) -> bool {
        self.pane_ids().contains(id)
    }

    /// Id of the first pane in traversal order.
    pub open spec fn first_id(self) -> int
        decreases self,
    {
        match self {
            LayoutNode::Pane { id, .. } => id as int,
            LayoutNode::Split { left, .. } => left.first_id(),
        }
    }

    /// The tree after replacing the pane `target` with a split whose first
    /// child is that pane and whose second child is a fresh empty pane
    /// numbered `new_id`.
    pub open spec fn split_at(self, target: int, new_id: usize, dir: SplitDirection) -> LayoutNode
        decreases self,
    {
        match self {
            LayoutNode::Pane { id, view } => {
                if id == target {
                    LayoutNode::Split {
                        direction: dir,
                        ratio: 50,
                        left: Box::new(LayoutNode::Pane { id, view }),
                        right: Box::new(LayoutNode::Pane { id: new_id, view: ViewType::Empty }),
                    }
                } else {
                    self
                }
            },
            LayoutNode::Split { direction, ratio, left, right } => LayoutNode::Split {
                direction,
                ratio,
                left: Box::new(left.split_at(target, new_id, dir)),
                right: Box::new(right.split_at(target, new_id, dir)),
            },
        }
    }

    /// The tree after removing every pane named `target`: a removed pane
    /// yields nothing, a split with one surviving child collapses into that
    /// child, and a split with none vanishes as well.
    pub open spec fn remove_pane(self, target: int) -> Option<LayoutNode>
        decreases self,
    {
        match self {
            LayoutNode::Pane { id, .. } => {
                if id == target {
                    None
                } else {
                    Some(self)
                }
            },
            LayoutNode::Split { direction, ratio, left, right } => {
                match (left.remove_pane(target), right.remove_pane(target)) {
                    (None, None) => None,
                    (None, Some(r)) => Some(r),
                    (Some(l), None) => Some(l),
                    (Some(l), Some(r)) => Some(
                        LayoutNode::Split {
                            direction,
                            ratio,
                            left: Box::new(l),
                            right: Box::new(r),
                        },
                    ),
                }
            },
        }
    }

    /// The tree relabelled so that its panes carry ids `start`,
    /// `start + 1`, ... in traversal order; views and splits are kept.
    pub open spec fn reindexed(self, start: int) -> LayoutNode
        decreases self,
    {
        match self {
            LayoutNode::Pane { view, .. } => LayoutNode::Pane { id: start as usize, view },
            LayoutNode::Split { direction, ratio, left, right } => LayoutNode::Split {
                direction,
                ratio,
                left: Box::new(left.reindexed(start)),
                right: Box::new(right.reindexed(start + left.pane_count())),
            },
        }
    }

    /// The ratio of the split that `path` resolves to, if any.
    pub open spec fn ratio_at(self, path: Seq<usize>) -> Option<int>
        decreases self,
    {
        match self {
            LayoutNode::Pane { .. } => None,
            LayoutNode::Split { ratio, left, right, .. } => {
                if path.len() == 0 {
                    Some(ratio as int)
                } else if path[0] == 0 {
                    left.ratio_at(path.skip(1))
                } else if path[0] == 1 {
                    right.ratio_at(path.skip(1))
                } else {
                    None
                }
            },
        }
    }

    /// The tree after setting the ratio of the split that `path` resolves to
    /// to `v` clamped into [10, 90]; unchanged when the path is stale.
    pub open spec fn set_ratio_at(self, path: Seq<usize>, v: int) -> LayoutNode
        decreases self,
    {
        match self {
            LayoutNode::Pane { .. } => self,
            LayoutNode::Split { direction, ratio, left, right } => {
                if path.len() == 0 {
                    LayoutNode::Split {
                        direction,
                        ratio: clamp_ratio(v) as u16,
                        left,
                        right,
                    }
                } else if path[0] == 0 {
                    LayoutNode::Split {
                        direction,
                        ratio,
                        left: Box::new(left.set_ratio_at(path.skip(1), v)),
                        right,
                    }
                } else if path[0] == 1 {
                    LayoutNode::Split {
                        direction,
                        ratio,
                        left,
                        right: Box::new(right.set_ratio_at(path.skip(1), v)),
                    }
                } else {
                    self
                }
            },
        }
    }

    /// The tree after shifting the addressed split's ratio by `delta`,
    /// clamped into [10, 90]; unchanged when the path is stale.
    pub open spec fn adjusted_at(self, path: Seq<usize>, delta: int) -> LayoutNode {
        match self.ratio_at(path) {
            Some(r) => self.set_ratio_at(path, r + delta),
            None => self,
        }
    }

    /// The tree after giving the pane named `target` the view `v`.
    pub open spec fn with_view(self, target: int, v: ViewType) -> LayoutNode
        decreases self,
    {
        match self {
            LayoutNode::Pane { id, view } => {
                if id == target {
                    LayoutNode::Pane { id, view: v }
                } else {
                    self
                }
            },
            LayoutNode::Split { direction, ratio, left, right } => LayoutNode::Split {
                direction,
                ratio,
                left: Box::new(left.with_view(target, v)),
                right: Box::new(right.with_view(target, v)),
            },
        }
    }

    /// The view of the pane named `target`, if such a pane exists.
    pub open spec fn view_of(self, target: int) -> Option<ViewType>
        decreases self,
    {
        match self {
            LayoutNode::Pane { id, view } => {
                if id == target {
                    Some(view)
                } else {
                    None
                }
            },
            LayoutNode::Split { left, right, .. } => {
                if left.view_of(target) is Some {
                    left.view_of(target)
                } else {
                    right.view_of(target)
                }
            },
        }
    }

    /// The largest pane id in the tree.
    pub open spec fn max_pane_id(self) -> int
        decreases self,
    {
        match self {
            LayoutNode::Pane { id, .. } => id as int,
            LayoutNode::Split { left, right, .. } => {
                if left.max_pane_id() >= right.max_pane_id() {
                    left.max_pane_id()
                } else {
                    right.max_pane_id()
                }
            },
        }
    }

    /// Sets the ratio of the split addressed by `path` to `new_ratio`,
    /// clamped into [10, 90]; a stale path leaves the tree unchanged.
    pub fn set_ratio_recursive(&mut self, path: &[usize], new_ratio: u16)
        ensures
            *final(self) == old(self).set_ratio_at(path@, new_ratio as int),
    {
        let mut node = LayoutNode::Pane { id: 1, view: ViewType::Empty };
        core::mem::swap(self, &mut node);
        proof {
            assert(path@.skip(0) =~= path@);
        }
        *self = set_ratio_node(node, path, 0, new_ratio as i32);
    }

    /// Shifts the ratio of the split addressed by `path` by `delta`,
    /// clamped into [10, 90]; a stale path leaves the tree unchanged.
    pub fn adjust_ratio_recursive(&mut self, path: &[usize], delta: i16)
        ensures
            *final(self) == old(self).adjusted_at(path@, delta as int),
    {
        proof {
            assert(path@.skip(0) =~= path@);
        }
        let cur = ratio_at_node(self, path, 0);
        match cur {
            Some(r) => {
                let mut node = LayoutNode::Pane { id: 1, view: ViewType::Empty };
                core::mem::swap(self, &mut node);
                let v = r as i32 + delta as i32;
                *self = set_ratio_node(node, path, 0, v);
            },
            None => {},
        }
    }

    /// Every split ratio lies in [10, 90].
    pub open spec fn ratios_ok(self) -> bool
        decreases self,
    {
        match self {
            LayoutNode::Pane { .. } => true,
            LayoutNode::Split { ratio, left, right, .. } => {
                &&& 10 <= ratio <= 90
                &&& left.ratios_ok()
                &&& right.ratios_ok()
            },
        }
    }
}

/// `v` forced into the legal ratio range [10, 90].
pub open spec fn clamp_ratio(v: int) -> int {
    if v < 10 {
        10
    } else if v > 90 {
        90
    } else {
        v
    }
}

/// Steps a cyclic upward scan starting at `from + 1` needs to reach `to`,
/// where ids live on the ring `1 ..= m - 1`.
pub open spec fn focus_dist(from: int, to: int, m: int) -> int
    recommends
        1 <= from < m,
        1 <= to < m,
{
    if to > from {
        to - from - 1
    } else {
        to - from - 1 + (m - 1)
    }
}

/// Classifies views by how their pane reacts to navigation keys: temporal
/// views step through history, spatial views move a camera.
pub trait ViewBehavior {
    /// Whether arrow keys step this view through time.
    spec fn temporal_spec(&self) -> bool;

    /// Whether letter keys move this view's camera.
    spec fn spatial_spec(&self) -> bool;

    fn is_temporal(&self) -> (r: bool)
        ensures
            r == self.temporal_spec(),
    ;

    fn is_spatial(&self) -> (r: bool)
        ensures
            r == self.spatial_spec(),
    ;
}

impl ViewBehavior for ViewType {
    open spec fn temporal_spec(&self) -> bool {
        self matches ViewType::Dashboard || self matches ViewType::Spectrogram || self
            matches ViewType::Phase
    }

    open spec fn spatial_spec(&self) -> bool {
        self matches ViewType::Polar || self matches ViewType::Isometric
    }

    fn is_temporal(&self) -> (r: bool) {
        match self {
            ViewType::Dashboard | ViewType::Spectrogram | ViewType::Phase => true,
            _ => false,
        }
    }

    fn is_spatial(&self) -> (r: bool) {
        match self {
            ViewType::Polar | ViewType::Isometric => true,
            _ => false,
        }
    }
}

/// Owner of the layout tree plus focus and id-allocation state.
pub struct TilingManager {
    pub root: LayoutNode,
    pub focused_pane_id: usize,
    pub next_id: usize,
    pub is_default: bool,
    pub theme_variant: Option<ThemeType>,
}

impl TilingManager {
    /// Structural well-formedness: ratios in range, pane ids unique and in
    /// [1, next_id), the focused id present, and enough headroom left in
    /// `next_id` that ten panes can always be reached by splitting.
    pub open spec fn wf(self) -> bool {
        &&& self.root.ratios_ok()
        &&& self.root.pane_ids().no_duplicates()
        &&& forall|i: int|
            0 <= i < self.root.pane_ids().len() ==> 1 <= #[trigger] self.root.pane_ids()[i]
                < self.next_id
        &&& self.root.contains_pane(self.focused_pane_id as int)
        &&& self.next_id - self.root.pane_count() <= usize::MAX - 10
    }

    /// The single-pane startup layout.
    pub fn new() -> (r: TilingManager)
        ensures
            r.wf(),
            r.root == (LayoutNode::Pane { id: 1usize, view: ViewType::Empty }),
            r.focused_pane_id == 1,
            r.next_id == 2,
            !r.is_default,
            r.theme_variant is None,
    {
        let r = TilingManager {
            root: LayoutNode::Pane { id: 1, view: ViewType::Empty },
            focused_pane_id: 1,
            next_id: 2,
            is_default: false,
            theme_variant: None,
        };
        proof {
            assert(r.root.pane_ids() =~= seq![1int]);
            assert(r.root.pane_ids()[0] == 1);
        }
        r
    }

    /// Splits the focused pane along `direction`, giving the new pane a
    /// fresh id and the focus. A no-op once ten panes are reached, so the
    /// pane count never grows past ten.
    pub fn split(&mut self, direction: SplitDirection)
        requires
            old(self).wf(),
        ensures
            final(self).wf(),
            old(self).root.pane_count() >= 10 ==> *final(self) == *old(self),
            old(self).root.pane_count() < 10 ==> *final(self) == (TilingManager {
                root: old(self).root.split_at(
                    old(self).focused_pane_id as int,
                    old(self).next_id,
                    direction,
                ),
                focused_pane_id: old(self).next_id,
                next_id: (old(self).next_id + 1) as usize,
                ..*old(self)
            }),
            old(self).root.pane_count() < 10 ==> final(self).root.pane_count() == old(
                self,
            ).root.pane_count() + 1,
            final(self).root.pane_count() <= 10 || final(self).root.pane_count() == old(
                self,
            ).root.pane_count(),
    {
        let count = self.get_pane_count();
        if count >= 10 {
            return ;
        }
        let mut root = LayoutNode::Pane { id: 1, view: ViewType::Empty };
        core::mem::swap(&mut self.root, &mut root);
        let new_root = split_node(root, self.focused_pane_id, self.next_id, direction);
        self.root = new_root;
        proof {
            let ids = old(self).root.pane_ids();
            let target = old(self).focused_pane_id as int;
            let fresh = old(self).next_id as int;
            lemma_split_at_present(old(self).root, target, old(self).next_id, direction);
            let k = ids.index_of(target);
            ids.insert_ensures(k + 1, fresh);
            assert(!ids.contains(fresh));
            lemma_insert_unique(ids, k + 1, fresh);
            let new_ids = self.root.pane_ids();
            assert(new_ids == ids.insert(k + 1, fresh));
            assert(new_ids[k + 1] == fresh);
            assert(new_ids.contains(fresh));
            assert forall|i: int| 0 <= i < new_ids.len() implies 1 <= #[trigger] new_ids[i]
                < old(self).next_id + 1 by {
                if i < k + 1 {
                    assert(new_ids[i] == ids[i]);
                } else if i > k + 1 {
                    assert(new_ids[i] == ids[i - 1]);
                }
            }
        }
        self.focused_pane_id = self.next_id;
        self.next_id = self.next_id + 1;
    }

    /// Closes the focused pane: a no-op on a single-pane tree, otherwise the
    /// pane is removed, its parent split collapses, every surviving pane is
    /// relabelled `1..=pane_count` in traversal order, and the focus moves to
    /// pane 1 — the traversal-first survivor, since the focused pane itself
    /// was just removed.
    pub fn close_focused_pane(&mut self)
        requires
            old(self).wf(),
        ensures
            final(self).wf(),
            old(self).root.pane_count() <= 1 ==> *final(self) == *old(self),
            old(self).root.pane_count() >= 2 ==> ({
                let removed = old(self).root.remove_pane(old(self).focused_pane_id as int);
                &&& removed matches Some(rest)
                &&& final(self).root == removed.unwrap().reindexed(1)
                &&& final(self).root.pane_count() == old(self).root.pane_count() - 1
                &&& final(self).root.pane_ids() == Seq::new(
                    (old(self).root.pane_count() - 1) as nat,
                    |i: int| i + 1,
                )
                &&& final(self).focused_pane_id == 1
                &&& final(self).next_id == old(self).root.pane_count()
                &&& final(self).is_default == old(self).is_default
                &&& final(self).theme_variant == old(self).theme_variant
            }),
    {
        let count = self.get_pane_count();
        if count <= 1 {
            return ;
        }
        proof {
            lemma_remove_present(self.root, self.focused_pane_id as int);
            let ids = self.root.pane_ids();
            let k = ids.index_of(self.focused_pane_id as int);
            ids.remove_ensures(k);
        }
        let mut root = LayoutNode::Pane { id: 1, view: ViewType::Empty };
        core::mem::swap(&mut self.root, &mut root);
        let rest = remove_node(root, self.focused_pane_id);
        match rest {
            Some(n) => {
                let (relabelled, next) = reindex_node(n, 1);
                proof {
                    lemma_reindexed_props(n, 1);
                    let fresh_ids = relabelled.pane_ids();
                    assert forall|i: int, j: int|
                        0 <= i < fresh_ids.len() && 0 <= j < fresh_ids.len() && i
                            != j implies fresh_ids[i] != fresh_ids[j] by {
                        assert(fresh_ids[i] == i + 1);
                        assert(fresh_ids[j] == j + 1);
                    }
                    assert(fresh_ids[0] == 1);
                    assert(fresh_ids.contains(1));
                }
                self.root = relabelled;
                self.next_id = next;
                self.focused_pane_id = 1;
            },
            None => {
                // Unreachable: a tree with two or more panes never vanishes
                // when a single id is removed.
                proof {
                    assert(false);
                }
            },
        }
    }

    /// Sets the ratio of the split addressed by `path` to `ratio`, clamped
    /// into [10, 90]; a stale path is silently ignored.
    pub fn set_split_ratio(&mut self, path: &[usize], ratio: u16)
        requires
            old(self).wf(),
        ensures
            final(self).wf(),
            final(self).root == old(self).root.set_ratio_at(path@, ratio as int),
            final(self).focused_pane_id == old(self).focused_pane_id,
            final(self).next_id == old(self).next_id,
            final(self).is_default == old(self).is_default,
            final(self).theme_variant == old(self).theme_variant,
    {
        proof {
            lemma_set_ratio_props(old(self).root, path@, ratio as int);
        }
        self.root.set_ratio_recursive(path, ratio);
    }

    /// Shifts the ratio of the split addressed by `path` by `delta`, clamped
    /// into [10, 90]; a stale path is silently ignored.
    pub fn adjust_split_ratio(&mut self, path: &[usize], delta: i16)
        requires
            old(self).wf(),
        ensures
            final(self).wf(),
            final(self).root == old(self).root.adjusted_at(path@, delta as int),
            final(self).focused_pane_id == old(self).focused_pane_id,
            final(self).next_id == old(self).next_id,
            final(self).is_default == old(self).is_default,
            final(self).theme_variant == old(self).theme_variant,
    {
        proof {
            if old(self).root.ratio_at(path@) is Some {
                let r = old(self).root.ratio_at(path@).unwrap();
                lemma_set_ratio_props(old(self).root, path@, r + delta as int);
            }
        }
        self.root.adjust_ratio_recursive(path, delta);
    }

    /// Gives the focused pane the view `new_view`.
    pub fn set_current_view(&mut self, new_view: ViewType)
        requires
            old(self).wf(),
        ensures
            final(self).wf(),
            final(self).root == old(self).root.with_view(
                old(self).focused_pane_id as int,
                new_view,
            ),
            final(self).root.view_of(old(self).focused_pane_id as int) == Some(new_view),
            final(self).focused_pane_id == old(self).focused_pane_id,
            final(self).next_id == old(self).next_id,
            final(self).is_default == old(self).is_default,
            final(self).theme_variant == old(self).theme_variant,
    {
        let mut root = LayoutNode::Pane { id: 1, view: ViewType::Empty };
        core::mem::swap(&mut self.root, &mut root);
        let new_root = with_view_node(root, self.focused_pane_id, new_view);
        proof {
            lemma_with_view_props(old(self).root, old(self).focused_pane_id as int, new_view);
        }
        self.root = new_root;
    }

    /// Moves the focus to the pane named `id` if it exists; otherwise the
    /// manager is left unchanged.
    pub fn focus_pane(&mut self, id: usize)
        requires
            old(self).wf(),
        ensures
            final(self).wf(),
            old(self).root.contains_pane(id as int) ==> *final(self) == (TilingManager {
                focused_pane_id: id,
                ..*old(self)
            }),
            !old(self).root.contains_pane(id as int) ==> *final(self) == *old(self),
    {
        if node_contains(&self.root, id) {
            self.focused_pane_id = id;
        }
    }

    /// Moves the focus to the next existing pane id, scanning upward from
    /// the current focus and wrapping past `next_id` back to 1.
    pub fn focus_next(&mut self)
        requires
            old(self).wf(),
        ensures
            final(self).wf(),
            final(self).root == old(self).root,
            final(self).next_id == old(self).next_id,
            final(self).is_default == old(self).is_default,
            final(self).theme_variant == old(self).theme_variant,
            old(self).root.contains_pane(final(self).focused_pane_id as int),
            forall|y: int|
                old(self).root.contains_pane(y) ==> focus_dist(
                    old(self).focused_pane_id as int,
                    final(self).focused_pane_id as int,
                    old(self).next_id as int,
                ) <= #[trigger] focus_dist(
                    old(self).focused_pane_id as int,
                    y,
                    old(self).next_id as int,
                ),
    {
        let m = self.next_id;
        let f = self.focused_pane_id;
        proof {
            let ids = self.root.pane_ids();
            let k = ids.index_of(f as int);
            assert(ids[k] == f as int);
            assert(1 <= f < m);
        }
        let mut check: usize = f + 1;
        let ghost mut t: int = 0;
        loop
            invariant
                self == old(self),
                self.wf(),
                m == self.next_id,
                f == self.focused_pane_id,
                1 <= f < m,
                2 <= m,
                1 <= check <= m,
                0 <= t <= m - 2,
                focus_dist(f as int, if check == m { 1int } else { check as int }, m as int)
                    == t,
                forall|y: int|
                    self.root.contains_pane(y) ==> #[trigger] focus_dist(
                        f as int,
                        y,
                        m as int,
                    ) >= t,
            decreases m - 1 - t,
        {
            let c = if check >= m {
                1
            } else {
                check
            };
            proof {
                let ids = self.root.pane_ids();
                assert forall|y: int| self.root.contains_pane(y) implies 1 <= y < m by {
                    let k = ids.index_of(y);
                    assert(ids[k] == y);
                }
            }
            if node_contains(&self.root, c) {
                self.focused_pane_id = c;
                return ;
            }
            proof {
                assert(focus_dist(f as int, f as int, m as int) == m - 2);
                assert(c != f);
                assert(t < m - 2);
            }
            check = c + 1;
            proof {
                t = t + 1;
            }
        }
    }

    /// Number of pane leaves in the current tree.
    pub fn get_pane_count(&self) -> (r: usize)
        requires
            self.wf(),
        ensures
            r == self.root.pane_count(),
    {
        proof {
            lemma_pane_count_bounded(self.root, self.next_id as int);
        }
        count_nodes(&self.root)
    }
}

/// Counts the pane leaves of a subtree.
fn count_nodes(node: &LayoutNode) -> (r: usize)
    requires
        node.pane_count() <= usize::MAX,
    ensures
        r == node.pane_count(),
    decreases *node,
{
    match node {
        LayoutNode::Pane { .. } => 1,
        LayoutNode::Split { left, right, .. } => {
            proof {
                assert(node.pane_ids() == left.pane_ids() + right.pane_ids());
            }
            let a = count_nodes(left);
            let b = count_nodes(right);
            a + b
        },
    }
}

/// Membership in a concatenation is membership in either part.
pub proof fn lemma_concat_contains(a: Seq<int>, b: Seq<int>, x: int)
    ensures
        (a + b).contains(x) <==> a.contains(x) || b.contains(x),
{
    if a.contains(x) {
        let i = choose|i: int| 0 <= i < a.len() && a[i] == x;
        assert((a + b)[i] == x);
    }
    if b.contains(x) {
        let i = choose|i: int| 0 <= i < b.len() && b[i] == x;
        assert((a + b)[a.len() + i] == x);
    }
    if (a + b).contains(x) {
        let i = choose|i: int| 0 <= i < (a + b).len() && (a + b)[i] == x;
        if i < a.len() {
            assert(a[i] == x);
        } else {
            assert(b[i - a.len()] == x);
        }
    }
}

/// A duplicate-free concatenation has duplicate-free, disjoint parts.
pub proof fn lemma_concat_unique_sides(a: Seq<int>, b: Seq<int>)
    requires
        (a + b).no_duplicates(),
    ensures
        a.no_duplicates(),
        b.no_duplicates(),
        forall|x: int| a.contains(x) ==> !b.contains(x),
{
    assert forall|i: int, j: int| 0 <= i < a.len() && 0 <= j < a.len() && i != j implies a[i]
        != a[j] by {
        assert((a + b)[i] == a[i]);
        assert((a + b)[j] == a[j]);
    }
    assert forall|i: int, j: int| 0 <= i < b.len() && 0 <= j < b.len() && i != j implies b[i]
        != b[j] by {
        assert((a + b)[a.len() + i] == b[i]);
        assert((a + b)[a.len() + j] == b[j]);
    }
    assert forall|x: int| a.contains(x) implies !b.contains(x) by {
        if a.contains(x) && b.contains(x) {
            let i = choose|i: int| 0 <= i < a.len() && a[i] == x;
            let j = choose|j: int| 0 <= j < b.len() && b[j] == x;
            assert((a + b)[i] == x);
            assert((a + b)[a.len() + j] == x);
        }
    }
}

/// Inserting a fresh value keeps a sequence duplicate-free.
pub proof fn lemma_insert_unique(s: Seq<int>, pos: int, v: int)
    requires
        0 <= pos <= s.len(),
        s.no_duplicates(),
        !s.contains(v),
    ensures
        s.insert(pos, v).no_duplicates(),
{
    s.insert_ensures(pos, v);
    let t = s.insert(pos, v);
    assert forall|i: int, j: int| 0 <= i < t.len() && 0 <= j < t.len() && i != j implies t[i]
        != t[j] by {
        if i != pos && j != pos {
            let a = if i < pos { i } else { i - 1 };
            let b = if j < pos { j } else { j - 1 };
            assert(t[i] == s[a]);
            assert(t[j] == s[b]);
        } else if i == pos {
            let b = if j < pos { j } else { j - 1 };
            assert(t[j] == s[b]);
            assert(s.contains(s[b]));
        } else {
            let a = if i < pos { i } else { i - 1 };
            assert(t[i] == s[a]);
            assert(s.contains(s[a]));
        }
    }
}

/// Splitting at an id that is not in the tree changes nothing.
pub proof fn lemma_split_at_absent(node: LayoutNode, target: int, new_id: usize, dir: SplitDirection)
    requires
        !node.contains_pane(target),
    ensures
        node.split_at(target, new_id, dir) == node,
    decreases node,
{
    match node {
        LayoutNode::Pane { id, .. } => {
            assert(node.pane_ids()[0] == id as int);
        },
        LayoutNode::Split { left, right, .. } => {
            lemma_concat_contains(left.pane_ids(), right.pane_ids(), target);
            lemma_split_at_absent(*left, target, new_id, dir);
            lemma_split_at_absent(*right, target, new_id, dir);
        },
    }
}

/// Splitting at a present id inserts the fresh id right after the target in
/// traversal order and keeps every ratio in range.
pub proof fn lemma_split_at_present(
    node: LayoutNode,
    target: int,
    new_id: usize,
    dir: SplitDirection,
)
    requires
        node.pane_ids().no_duplicates(),
        node.pane_ids().contains(target),
    ensures
        ({
            let ids = node.pane_ids();
            let k = ids.index_of(target);
            let r = node.split_at(target, new_id, dir);
            &&& 0 <= k < ids.len() && ids[k] == target
            &&& r.pane_ids() == ids.insert(k + 1, new_id as int)
            &&& (node.ratios_ok() ==> r.ratios_ok())
        }),
    decreases node,
{
    let ids = node.pane_ids();
    let k = ids.index_of(target);
    assert(0 <= k < ids.len() && ids[k] == target);
    let r = node.split_at(target, new_id, dir);
    match node {
        LayoutNode::Pane { id, view } => {
            assert(ids =~= seq![id as int]);
            assert(k == 0);
            assert(id == target);
            let lp = LayoutNode::Pane { id, view };
            let rp = LayoutNode::Pane { id: new_id, view: ViewType::Empty };
            assert(r == (LayoutNode::Split {
                direction: dir,
                ratio: 50u16,
                left: Box::new(lp),
                right: Box::new(rp),
            }));
            assert(r.pane_ids() == lp.pane_ids() + rp.pane_ids());
            assert(r.pane_ids() =~= seq![id as int, new_id as int]);
            assert(ids.insert(1, new_id as int) =~= seq![id as int, new_id as int]);
            assert(lp.ratios_ok());
            assert(rp.ratios_ok());
            assert(r.ratios_ok());
        },
        LayoutNode::Split { direction, ratio, left, right } => {
            let l_ids = left.pane_ids();
            let r_ids = right.pane_ids();
            lemma_concat_unique_sides(l_ids, r_ids);
            lemma_concat_contains(l_ids, r_ids, target);
            if l_ids.contains(target) {
                lemma_split_at_present(*left, target, new_id, dir);
                lemma_split_at_absent(*right, target, new_id, dir);
                let kl = l_ids.index_of(target);
                assert(ids[kl] == l_ids[kl]);
                assert(k == kl);
                l_ids.insert_ensures(kl + 1, new_id as int);
                ids.insert_ensures(k + 1, new_id as int);
                assert(r.pane_ids() == left.split_at(target, new_id, dir).pane_ids()
                    + right.split_at(target, new_id, dir).pane_ids());
                assert(l_ids.insert(kl + 1, new_id as int) + r_ids =~= ids.insert(
                    k + 1,
                    new_id as int,
                ));
            } else {
                lemma_split_at_present(*right, target, new_id, dir);
                lemma_split_at_absent(*left, target, new_id, dir);
                let kr = r_ids.index_of(target);
                assert(ids[l_ids.len() + kr] == r_ids[kr]);
                assert(k == l_ids.len() + kr);
                r_ids.insert_ensures(kr + 1, new_id as int);
                ids.insert_ensures(k + 1, new_id as int);
                assert(l_ids + r_ids.insert(kr + 1, new_id as int) =~= ids.insert(
                    k + 1,
                    new_id as int,
                ));
            }
        },
    }
}

/// Every tree has at least one pane.
pub proof fn lemma_pane_ids_nonempty(node: LayoutNode)
    ensures
        node.pane_ids().len() >= 1,
    decreases node,
{
    match node {
        LayoutNode::Pane { .. } => {},
        LayoutNode::Split { left, right, .. } => {
            lemma_pane_ids_nonempty(*left);
            lemma_pane_ids_nonempty(*right);
        },
    }
}

/// The first id is the head of the id sequence.
pub proof fn lemma_first_id_is_first(node: LayoutNode)
    ensures
        node.pane_ids().len() >= 1,
        node.first_id() == node.pane_ids()[0],
    decreases node,
{
    match node {
        LayoutNode::Pane { .. } => {},
        LayoutNode::Split { left, right, .. } => {
            lemma_first_id_is_first(*left);
            lemma_pane_ids_nonempty(*right);
        },
    }
}

/// The largest pane id bounds every id and occurs in the tree.
pub proof fn lemma_max_pane_id(node: LayoutNode)
    ensures
        forall|k: int|
            0 <= k < node.pane_ids().len() ==> #[trigger] node.pane_ids()[k]
                <= node.max_pane_id(),
        node.pane_ids().contains(node.max_pane_id()),
    decreases node,
{
    match node {
        LayoutNode::Pane { id, .. } => {
            assert(node.pane_ids()[0] == id as int);
        },
        LayoutNode::Split { left, right, .. } => {
            lemma_max_pane_id(*left);
            lemma_max_pane_id(*right);
            let l_ids = left.pane_ids();
            let r_ids = right.pane_ids();
            lemma_concat_contains(l_ids, r_ids, node.max_pane_id());
            assert forall|k: int|
                0 <= k < node.pane_ids().len() implies #[trigger] node.pane_ids()[k]
                <= node.max_pane_id() by {
                if k < l_ids.len() {
                    assert(node.pane_ids()[k] == l_ids[k]);
                } else {
                    assert(node.pane_ids()[k] == r_ids[k - l_ids.len()]);
                }
            }
        },
    }
}

/// The id of the traversal-first pane.
pub(crate) fn first_id_node(node: &LayoutNode) -> (r: usize)
    ensures
        r as int == node.first_id(),
    decreases *node,
{
    match node {
        LayoutNode::Pane { id, .. } => *id,
        LayoutNode::Split { left, .. } => first_id_node(&**left),
    }
}

/// The largest pane id in the subtree.
pub(crate) fn max_id_node(node: &LayoutNode) -> (r: usize)
    ensures
        r as int == node.max_pane_id(),
    decreases *node,
{
    match node {
        LayoutNode::Pane { id, .. } => *id,
        LayoutNode::Split { left, right, .. } => {
            let a = max_id_node(&**left);
            let b = max_id_node(&**right);
            if a >= b {
                a
            } else {
                b
            }
        },
    }
}

/// Removing an id that is not in the tree changes nothing.
pub proof fn lemma_remove_absent(node: LayoutNode, target: int)
    requires
        !node.contains_pane(target),
    ensures
        node.remove_pane(target) == Some(node),
    decreases node,
{
    match node {
        LayoutNode::Pane { id, .. } => {
            assert(node.pane_ids()[0] == id as int);
        },
        LayoutNode::Split { left, right, .. } => {
            lemma_concat_contains(left.pane_ids(), right.pane_ids(), target);
            lemma_remove_absent(*left, target);
            lemma_remove_absent(*right, target);
        },
    }
}

/// Removing a present id from a tree with several panes yields a tree whose
/// id sequence is the old one without the target, with ratios still in range.
pub proof fn lemma_remove_present(node: LayoutNode, target: int)
    requires
        node.pane_ids().no_duplicates(),
        node.pane_ids().contains(target),
    ensures
        node.pane_count() == 1 ==> (node.remove_pane(target) is None),
        node.pane_count() >= 2 ==> ({
            let ids = node.pane_ids();
            let k = ids.index_of(target);
            &&& node.remove_pane(target) matches Some(r)
            &&& node.remove_pane(target).unwrap().pane_ids() == ids.remove(k)
            &&& (node.ratios_ok() ==> node.remove_pane(target).unwrap().ratios_ok())
        }),
    decreases node,
{
    let ids = node.pane_ids();
    let k = ids.index_of(target);
    assert(0 <= k < ids.len() && ids[k] == target);
    match node {
        LayoutNode::Pane { id, .. } => {
            assert(ids =~= seq![id as int]);
            assert(ids[0] == id as int);
            assert(id == target);
        },
        LayoutNode::Split { direction, ratio, left, right } => {
            let l_ids = left.pane_ids();
            let r_ids = right.pane_ids();
            lemma_pane_ids_nonempty(*left);
            lemma_pane_ids_nonempty(*right);
            lemma_concat_unique_sides(l_ids, r_ids);
            lemma_concat_contains(l_ids, r_ids, target);
            if l_ids.contains(target) {
                lemma_remove_present(*left, target);
                lemma_remove_absent(*right, target);
                let kl = l_ids.index_of(target);
                assert(ids[kl] == l_ids[kl]);
                assert(k == kl);
                if left.pane_count() == 1 {
                    assert(l_ids =~= seq![target]);
                    assert(node.remove_pane(target) == Some(*right));
                    assert(ids.remove(0) =~= r_ids);
                } else {
                    let l2 = left.remove_pane(target).unwrap();
                    l_ids.remove_ensures(kl);
                    ids.remove_ensures(k);
                    assert(node.remove_pane(target).unwrap().pane_ids() == l2.pane_ids()
                        + r_ids);
                    assert(l_ids.remove(kl) + r_ids =~= ids.remove(k));
                }
            } else {
                lemma_remove_present(*right, target);
                lemma_remove_absent(*left, target);
                let kr = r_ids.index_of(target);
                assert(ids[l_ids.len() + kr] == r_ids[kr]);
                assert(k == l_ids.len() + kr);
                if right.pane_count() == 1 {
                    assert(r_ids =~= seq![target]);
                    assert(node.remove_pane(target) == Some(*left));
                    assert(ids.remove(k) =~= l_ids);
                } else {
                    let r2 = right.remove_pane(target).unwrap();
                    r_ids.remove_ensures(kr);
                    ids.remove_ensures(k);
                    assert(node.remove_pane(target).unwrap().pane_ids() == l_ids
                        + r2.pane_ids());
                    assert(l_ids + r_ids.remove(kr) =~= ids.remove(k));
                }
            }
        },
    }
}

/// Relabelling assigns exactly the ids `start .. start + pane_count` in
/// traversal order and keeps views and ratios.
pub proof fn lemma_reindexed_props(node: LayoutNode, start: int)
    requires
        1 <= start,
        start + node.pane_count() <= usize::MAX,
    ensures
        ({
            let r = node.reindexed(start);
            &&& r.pane_ids() == Seq::new(node.pane_count(), |i: int| start + i)
            &&& r.pane_views() == node.pane_views()
            &&& (node.ratios_ok() ==> r.ratios_ok())
        }),
    decreases node,
{
    let r = node.reindexed(start);
    match node {
        LayoutNode::Pane { id, view } => {
            assert(r.pane_ids() =~= Seq::new(1, |i: int| start + i));
            assert(r.pane_views() =~= node.pane_views());
        },
        LayoutNode::Split { left, right, .. } => {
            lemma_reindexed_props(*left, start);
            lemma_reindexed_props(*right, start + left.pane_count());
            assert(r.pane_ids() =~= Seq::new(node.pane_count(), |i: int| start + i));
            assert(r.pane_views() =~= node.pane_views());
        },
    }
}

/// Removes every pane named `target`, collapsing splits that lose a child.
fn remove_node(node: LayoutNode, target: usize) -> (r: Option<LayoutNode>)
    ensures
        r == node.remove_pane(target as int),
    decreases node,
{
    match node {
        LayoutNode::Pane { id, view } => {
            if id == target {
                None
            } else {
                Some(LayoutNode::Pane { id, view })
            }
        },
        LayoutNode::Split { direction, ratio, left, right } => {
            let l = remove_node(*left, target);
            let r = remove_node(*right, target);
            match (l, r) {
                (None, None) => None,
                (None, Some(b)) => Some(b),
                (Some(a), None) => Some(a),
                (Some(a), Some(b)) => Some(
                    LayoutNode::Split {
                        direction,
                        ratio,
                        left: Box::new(a),
                        right: Box::new(b),
                    },
                ),
            }
        },
    }
}

/// Relabels panes with consecutive ids starting at `start`; returns the new
/// tree and the first id not handed out.
fn reindex_node(node: LayoutNode, start: usize) -> (r: (LayoutNode, usize))
    requires
        start >= 1,
        start + node.pane_count() <= usize::MAX,
    ensures
        r.0 == node.reindexed(start as int),
        r.1 == start + node.pane_count(),
    decreases node,
{
    match node {
        LayoutNode::Pane { id: _, view } => (LayoutNode::Pane { id: start, view }, start + 1),
        LayoutNode::Split { direction, ratio, left, right } => {
            proof {
                assert(node.pane_ids() == left.pane_ids() + right.pane_ids());
            }
            let (l, mid) = reindex_node(*left, start);
            let (r, end) = reindex_node(*right, mid);
            (LayoutNode::Split { direction, ratio, left: Box::new(l), right: Box::new(r) }, end)
        },
    }
}

/// Replaces the pane `target` by a split of it and a fresh empty pane.
fn split_node(node: LayoutNode, target: usize, new_id: usize, dir: SplitDirection) -> (r:
    LayoutNode)
    ensures
        r == node.split_at(target as int, new_id, dir),
    decreases node,
{
    match node {
        LayoutNode::Pane { id, view } => {
            if id == target {
                LayoutNode::Split {
                    direction: dir,
                    ratio: 50,
                    left: Box::new(LayoutNode::Pane { id, view }),
                    right: Box::new(LayoutNode::Pane { id: new_id, view: ViewType::Empty }),
                }
            } else {
                LayoutNode::Pane { id, view }
            }
        },
        LayoutNode::Split { direction, ratio, left, right } => {
            let l = split_node(*left, target, new_id, dir);
            let r = split_node(*right, target, new_id, dir);
            LayoutNode::Split { direction, ratio, left: Box::new(l), right: Box::new(r) }
        },
    }
}

/// Setting a ratio keeps the pane ids, keeps every ratio in range, and pins
/// the addressed split's ratio at the clamped value.
pub proof fn lemma_set_ratio_props(node: LayoutNode, path: Seq<usize>, v: int)
    ensures
        ({
            let r = node.set_ratio_at(path, v);
            &&& r.pane_ids() == node.pane_ids()
            &&& r.pane_views() == node.pane_views()
            &&& (node.ratios_ok() ==> r.ratios_ok())
            &&& r.ratio_at(path) == (match node.ratio_at(path) {
                Some(_) => Some(clamp_ratio(v)),
                None => None,
            })
        }),
    decreases node,
{
    let r = node.set_ratio_at(path, v);
    match node {
        LayoutNode::Pane { .. } => {},
        LayoutNode::Split { direction, ratio, left, right } => {
            if path.len() == 0 {
            } else if path[0] == 0 {
                lemma_set_ratio_props(*left, path.skip(1), v);
            } else if path[0] == 1 {
                lemma_set_ratio_props(*right, path.skip(1), v);
            }
        },
    }
}

/// Two requested values with the same clamped image set a ratio to the
/// same tree.
pub proof fn lemma_set_ratio_same_clamp(node: LayoutNode, path: Seq<usize>, v1: int, v2: int)
    requires
        clamp_ratio(v1) == clamp_ratio(v2),
    ensures
        node.set_ratio_at(path, v1) == node.set_ratio_at(path, v2),
    decreases node,
{
    match node {
        LayoutNode::Pane { .. } => {},
        LayoutNode::Split { left, right, .. } => {
            if path.len() == 0 {
            } else if path[0] == 0 {
                lemma_set_ratio_same_clamp(*left, path.skip(1), v1, v2);
            } else if path[0] == 1 {
                lemma_set_ratio_same_clamp(*right, path.skip(1), v1, v2);
            }
        },
    }
}

/// A resolvable path in a tree with legal ratios addresses a ratio
/// inside [10, 90].
pub proof fn lemma_ratio_at_in_range(node: LayoutNode, path: Seq<usize>)
    requires
        node.ratios_ok(),
        node.ratio_at(path) is Some,
    ensures
        10 <= node.ratio_at(path).unwrap() <= 90,
    decreases node,
{
    match node {
        LayoutNode::Pane { .. } => {},
        LayoutNode::Split { left, right, .. } => {
            if path.len() == 0 {
            } else if path[0] == 0 {
                lemma_ratio_at_in_range(*left, path.skip(1));
            } else if path[0] == 1 {
                lemma_ratio_at_in_range(*right, path.skip(1));
            }
        },
    }
}

/// Pulling a split's ratio down by a thousand in one step lands exactly on
/// 10 and further pulls keep it there; pushing up by a thousand lands on 90
/// and stays. This holds for every resolvable path in a well-formed tree.
pub proof fn lemma_adjust_ratio_converges(node: LayoutNode, path: Seq<usize>)
    requires
        node.ratios_ok(),
        node.ratio_at(path) is Some,
    ensures
        ({
            let down = node.adjusted_at(path, -1000);
            let up = node.adjusted_at(path, 1000);
            &&& down.ratio_at(path) == Some(10int)
            &&& down.adjusted_at(path, -1000).ratio_at(path) == Some(10int)
            &&& up.ratio_at(path) == Some(90int)
            &&& up.adjusted_at(path, 1000).ratio_at(path) == Some(90int)
        }),
{
    lemma_ratio_at_in_range(node, path);
    let r0 = node.ratio_at(path).unwrap();
    let down = node.adjusted_at(path, -1000);
    lemma_set_ratio_props(node, path, r0 - 1000);
    lemma_set_ratio_props(down, path, 10int - 1000);
    let up = node.adjusted_at(path, 1000);
    lemma_set_ratio_props(node, path, r0 + 1000);
    lemma_set_ratio_props(up, path, 90int + 1000);
}

/// A pane's view is known exactly when the pane exists.
pub proof fn lemma_view_of_contains(node: LayoutNode, target: int)
    ensures
        (node.view_of(target) is Some) <==> node.contains_pane(target),
    decreases node,
{
    match node {
        LayoutNode::Pane { id, .. } => {
            assert(node.pane_ids()[0] == id as int);
        },
        LayoutNode::Split { left, right, .. } => {
            lemma_concat_contains(left.pane_ids(), right.pane_ids(), target);
            lemma_view_of_contains(*left, target);
            lemma_view_of_contains(*right, target);
        },
    }
}

/// Assigning a view keeps ids and ratios and gives the addressed pane, if it
/// exists, exactly the new view.
pub proof fn lemma_with_view_props(node: LayoutNode, target: int, v: ViewType)
    ensures
        ({
            let r = node.with_view(target, v);
            &&& r.pane_ids() == node.pane_ids()
            &&& (node.ratios_ok() ==> r.ratios_ok())
            &&& (node.contains_pane(target) ==> r.view_of(target) == Some(v))
        }),
    decreases node,
{
    let r = node.with_view(target, v);
    match node {
        LayoutNode::Pane { id, .. } => {
            assert(node.pane_ids()[0] == id as int);
            if id == target {
                assert(node.contains_pane(target));
            }
        },
        LayoutNode::Split { left, right, .. } => {
            lemma_concat_contains(left.pane_ids(), right.pane_ids(), target);
            lemma_with_view_props(*left, target, v);
            lemma_with_view_props(*right, target, v);
            assert(r.pane_ids() =~= node.pane_ids());
            if node.contains_pane(target) {
                if left.contains_pane(target) {
                    lemma_view_of_contains(left.with_view(target, v), target);
                } else {
                    lemma_view_of_contains(left.with_view(target, v), target);
                    lemma_view_of_contains(*left, target);
                }
            }
        },
    }
}

/// `v` forced into [10, 90], as an executable step.
fn clamp_ratio_value(v: i32) -> (r: u16)
    ensures
        r as int == clamp_ratio(v as int),
{
    if v < 10 {
        10
    } else if v > 90 {
        90
    } else {
        v as u16
    }
}

/// Rewrites the ratio of the split addressed by `path[i..]`.
fn set_ratio_node(node: LayoutNode, path: &[usize], i: usize, v: i32) -> (r: LayoutNode)
    requires
        i <= path@.len(),
    ensures
        r == node.set_ratio_at(path@.skip(i as int), v as int),
    decreases node,
{
    match node {
        LayoutNode::Pane { id, view } => LayoutNode::Pane { id, view },
        LayoutNode::Split { direction, ratio, left, right } => {
            if i >= path.len() {
                let nr = clamp_ratio_value(v);
                LayoutNode::Split { direction, ratio: nr, left, right }
            } else {
                proof {
                    assert(path@.skip(i as int)[0] == path@[i as int]);
                    assert(path@.skip(i as int).skip(1) =~= path@.skip(i as int + 1));
                }
                let idx = path[i];
                if idx == 0 {
                    let l = set_ratio_node(*left, path, i + 1, v);
                    LayoutNode::Split { direction, ratio, left: Box::new(l), right }
                } else if idx == 1 {
                    let r = set_ratio_node(*right, path, i + 1, v);
                    LayoutNode::Split { direction, ratio, left, right: Box::new(r) }
                } else {
                    LayoutNode::Split { direction, ratio, left, right }
                }
            }
        },
    }
}

/// Reads the ratio of the split addressed by `path[i..]`, if any.
fn ratio_at_node(node: &LayoutNode, path: &[usize], i: usize) -> (r: Option<u16>)
    requires
        i <= path@.len(),
    ensures
        node.ratio_at(path@.skip(i as int)) == (match r {
            Some(x) => Some(x as int),
            None => None::<int>,
        }),
    decreases *node,
{
    match node {
        LayoutNode::Pane { .. } => None,
        LayoutNode::Split { ratio, left, right, .. } => {
            if i >= path.len() {
                Some(*ratio)
            } else {
                proof {
                    assert(path@.skip(i as int)[0] == path@[i as int]);
                    assert(path@.skip(i as int).skip(1) =~= path@.skip(i as int + 1));
                }
                let idx = path[i];
                if idx == 0 {
                    ratio_at_node(&**left, path, i + 1)
                } else if idx == 1 {
                    ratio_at_node(&**right, path, i + 1)
                } else {
                    None
                }
            }
        },
    }
}

/// Gives the pane named `target` the view `v`.
fn with_view_node(node: LayoutNode, target: usize, v: ViewType) -> (r: LayoutNode)
    ensures
        r == node.with_view(target as int, v),
    decreases node,
{
    match node {
        LayoutNode::Pane { id, view } => {
            if id == target {
                LayoutNode::Pane { id, view: v }
            } else {
                LayoutNode::Pane { id, view }
            }
        },
        LayoutNode::Split { direction, ratio, left, right } => {
            let l = with_view_node(*left, target, v);
            let r = with_view_node(*right, target, v);
            LayoutNode::Split { direction, ratio, left: Box::new(l), right: Box::new(r) }
        },
    }
}

/// Whether a pane named `target` occurs in the subtree.
pub(crate) fn node_contains(node: &LayoutNode, target: usize) -> (r: bool)
    ensures
        r == node.contains_pane(target as int),
    decreases *node,
{
    match node {
        LayoutNode::Pane { id, view: _ } => {
            proof {
                assert(node.pane_ids()[0] == *id as int);
            }
            *id == target
        },
        LayoutNode::Split { left, right, .. } => {
            proof {
                lemma_concat_contains(left.pane_ids(), right.pane_ids(), target as int);
            }
            let in_left = node_contains(&**left, target);
            if in_left {
                true
            } else {
                node_contains(&**right, target)
            }
        },
    }
}

/// Looks up the view shown by the pane named `target`.
pub fn find_view_type_recursive(node: &LayoutNode, target: usize) -> (r: Option<ViewType>)
    ensures
        r == node.view_of(target as int),
    decreases *node,
{
    match node {
        LayoutNode::Pane { id, view } => {
            if *id == target {
                Some(*view)
            } else {
                None
            }
        },
        LayoutNode::Split { left, right, .. } => {
            let l = find_view_type_recursive(&**left, target);
            if l.is_some() {
                l
            } else {
                find_view_type_recursive(&**right, target)
            }
        },
    }
}

/// A tree whose pane ids are unique and all below `bound` has fewer than
/// `bound` panes.
pub proof fn lemma_pane_count_bounded(node: LayoutNode, bound: int)
    requires
        node.pane_ids().no_duplicates(),
        forall|i: int| 0 <= i < node.pane_ids().len() ==> 1 <= #[trigger] node.pane_ids()[i] < bound,
        bound >= 1,
    ensures
        node.pane_count() <= bound - 1,
{
    let s = node.pane_ids();
    s.unique_seq_to_set();
    assert forall|x: int| s.to_set().contains(x) implies vstd::set_lib::set_int_range(
        1,
        bound,
    ).contains(x) by {
        let i = choose|i: int| 0 <= i < s.len() && s[i] == x;
        assert(1 <= s[i] < bound);
    }
    vstd::set_lib::lemma_int_range(1, bound);
    vstd::set_lib::lemma_len_subset(s.to_set(), vstd::set_lib::set_int_range(1, bound));
}

} // verus!
