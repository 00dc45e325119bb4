//! Quadtree-driven visibility and level-of-detail selection: given a view
//! in tile space, the tree subdivides where detail is needed, merges where
//! it is not, and yields the coarsest set of tiles that covers the view
//! without double coverage.

use vstd::prelude::*;
use vstd::arithmetic::power2::{pow2, lemma_pow2_adds, lemma_pow2_pos, lemma2_to64};
use vstd::arithmetic::mul::lemma_mul_inequality;
use crate::types::{
    TileId, MAX_ZOOM_LEVEL, MIN_ZOOM_LEVEL, covers, child_of, pow2_u64, adjacent_seq,
    lemma_covers_refl, lemma_covers_trans, lemma_covers_unique, lemma_child_covers,
    lemma_children_distinct,
};

verus! {

/// The view in tile space: the tile the camera looks at, at the zoom the
/// altitude calls for, and the viewport's half-extent in tiles at that
/// zoom.
#[derive(Debug, Clone, Copy, PartialEq, Eq, Structural)]
pub struct TileView {
    /// Target zoom level for the current altitude
    pub zoom: u8,
    /// X coordinate, in tiles at `zoom`, of the view center
    pub center_x: u32,
    /// Y coordinate, in tiles at `zoom`, of the view center
    pub center_y: u32,
    /// Half the viewport width, in tiles at `zoom`
    pub half_width: u32,
    /// Half the viewport height, in tiles at `zoom`
    pub half_height: u32,
}

impl TileView {
    pub open spec fn wf(self) -> bool {
        &&& self.zoom <= MAX_ZOOM_LEVEL
        &&& (self.center_x as nat) < pow2(self.zoom as nat)
        &&& (self.center_y as nat) < pow2(self.zoom as nat)
    }

    /// Create a view description.
    pub fn new(zoom: u8, center_x: u32, center_y: u32, half_width: u32, half_height: u32) -> (v:
        TileView)
        ensures
            v == (TileView { zoom, center_x, center_y, half_width, half_height }),
    {
        TileView { zoom, center_x, center_y, half_width, half_height }
    }
}

/// Whether the area of tile `t` (no finer than the view's zoom) overlaps
/// the view rectangle, both measured in tiles at the view's zoom.
pub open spec fn view_intersects(t: TileId, v: TileView) -> bool {
    let p = pow2((v.zoom - t.zoom) as nat) as int;
    &&& t.x * p <= v.center_x + v.half_width
    &&& v.center_x - v.half_width <= (t.x + 1) * p - 1
    &&& t.y * p <= v.center_y + v.half_height
    &&& v.center_y - v.half_height <= (t.y + 1) * p - 1
}

/// The scaled coordinate range of a tile stays below `2^(view zoom)`.
proof fn lemma_scaled_range(t: TileId, vz: u8)
    requires
        t.wf(),
        t.zoom <= vz <= MAX_ZOOM_LEVEL,
    ensures
        (t.x + 1) * pow2((vz - t.zoom) as nat) <= pow2(vz as nat),
        (t.y + 1) * pow2((vz - t.zoom) as nat) <= pow2(vz as nat),
        pow2(vz as nat) <= 0x80000,
        pow2((vz - t.zoom) as nat) >= 1,
{
    let d = (vz - t.zoom) as nat;
    lemma_pow2_pos(d);
    lemma_pow2_adds(t.zoom as nat, d);
    lemma_mul_inequality(t.x + 1, pow2(t.zoom as nat) as int, pow2(d) as int);
    lemma_mul_inequality(t.y + 1, pow2(t.zoom as nat) as int, pow2(d) as int);
    lemma2_to64();
    if vz < 19 {
        vstd::arithmetic::power2::lemma_pow2_strictly_increases(vz as nat, 19);
    }
}

/// A tile's area lies inside its ancestor's area, so overlapping the
/// view transfers upward: if a descendant overlaps the view, so does the
/// ancestor.
proof fn lemma_intersect_ancestor(a: TileId, t: TileId, v: TileView)
    requires
        a.wf(),
        t.wf(),
        v.wf(),
        covers(a, t),
        t.zoom <= v.zoom,
        view_intersects(t, v),
    ensures
        view_intersects(a, v),
{
    let d = (t.zoom - a.zoom) as nat;
    let dt = (v.zoom - t.zoom) as nat;
    let da = (v.zoom - a.zoom) as nat;
    let pd = pow2(d) as int;
    let pt = pow2(dt) as int;
    let pa = pow2(da) as int;
    lemma_pow2_pos(d);
    lemma_pow2_pos(dt);
    lemma_pow2_pos(da);
    lemma_pow2_adds(d, dt);
    assert(pa == pd * pt);
    vstd::arithmetic::div_mod::lemma_fundamental_div_mod(t.x as int, pd);
    vstd::arithmetic::div_mod::lemma_mod_division_less_than_divisor(t.x as int, pd);
    vstd::arithmetic::div_mod::lemma_fundamental_div_mod(t.y as int, pd);
    vstd::arithmetic::div_mod::lemma_mod_division_less_than_divisor(t.y as int, pd);
    assert(a.x * pd <= t.x as int && t.x as int + 1 <= (a.x + 1) * pd) by (nonlinear_arith)
        requires
            t.x as int == pd * (t.x as int / pd) + (t.x as int % pd),
            t.x as int / pd == a.x as int,
            0 <= t.x as int % pd < pd,
    ;
    assert(a.y * pd <= t.y as int && t.y as int + 1 <= (a.y + 1) * pd) by (nonlinear_arith)
        requires
            t.y as int == pd * (t.y as int / pd) + (t.y as int % pd),
            t.y as int / pd == a.y as int,
            0 <= t.y as int % pd < pd,
    ;
    assert(a.x * pa <= t.x * pt && (t.x + 1) * pt <= (a.x + 1) * pa) by (nonlinear_arith)
        requires
            pa == pd * pt,
            pt >= 1,
            pd >= 1,
            a.x >= 0,
            t.x >= 0,
            a.x * pd <= t.x as int,
            t.x as int + 1 <= (a.x + 1) * pd,
    ;
    assert(a.y * pa <= t.y * pt && (t.y + 1) * pt <= (a.y + 1) * pa) by (nonlinear_arith)
        requires
            pa == pd * pt,
            pt >= 1,
            pd >= 1,
            a.y >= 0,
            t.y >= 0,
            a.y * pd <= t.y as int,
            t.y as int + 1 <= (a.y + 1) * pd,
    ;
}

/// The walk's child selection is sound: a strict descendant lies under
/// the child `path_index` names.
proof fn lemma_path_child_covers(p: TileId, t: TileId)
    requires
        p.wf(),
        t.wf(),
        covers(p, t),
        p.zoom < t.zoom,
    ensures
        0 <= path_index(p, t) < 4,
        covers(child_of(p, path_index(p, t)), t),
{
    let d = (t.zoom - p.zoom) as nat;
    let dd = (d - 1) as nat;
    let qx = t.x as int / pow2(dd) as int;
    let qy = t.y as int / pow2(dd) as int;
    lemma_pow2_pos(dd);
    lemma2_to64();
    vstd::arithmetic::div_mod::lemma_div_pos_is_pos(t.x as int, pow2(dd) as int);
    vstd::arithmetic::div_mod::lemma_div_pos_is_pos(t.y as int, pow2(dd) as int);
    vstd::arithmetic::div_mod::lemma_div_denominator(t.x as int, pow2(dd) as int, 2);
    vstd::arithmetic::div_mod::lemma_div_denominator(t.y as int, pow2(dd) as int, 2);
    lemma_pow2_adds(dd, 1);
    assert(qx / 2 == p.x as int);
    assert(qy / 2 == p.y as int);
    vstd::arithmetic::div_mod::lemma_fundamental_div_mod(qx, 2);
    vstd::arithmetic::div_mod::lemma_mod_division_less_than_divisor(qx, 2);
    vstd::arithmetic::div_mod::lemma_fundamental_div_mod(qy, 2);
    vstd::arithmetic::div_mod::lemma_mod_division_less_than_divisor(qy, 2);
    let bx = qx % 2;
    let by = qy % 2;
    let i = 2 * by + bx;
    assert(i == path_index(p, t));
    assert(qx == 2 * p.x + bx && qy == 2 * p.y + by);
    assert(child_of(p, i).x == qx && child_of(p, i).y == qy);
    assert(covers(child_of(p, i), t));
}

/// Check whether a tile's area overlaps the current view rectangle.
pub fn tile_intersects_view(t: &TileId, v: &TileView) -> (r: bool)
    requires
        t.wf(),
        v.wf(),
        t.zoom <= v.zoom,
    ensures
        r == view_intersects(*t, *v),
{
    let d: u8 = v.zoom - t.zoom;
    let p: u64 = pow2_u64(d);
    proof {
        lemma_scaled_range(*t, v.zoom);
        assert((t.x as int + 1) * p as int == t.x as int * p as int + p as int) by (nonlinear_arith);
        assert((t.y as int + 1) * p as int == t.y as int * p as int + p as int) by (nonlinear_arith);
        assert(t.x as int * p as int >= 0) by (nonlinear_arith);
        assert(t.y as int * p as int >= 0) by (nonlinear_arith);
    }
    let lo_x: u64 = t.x as u64 * p;
    let hi_x: u64 = lo_x + p - 1;
    let lo_y: u64 = t.y as u64 * p;
    let hi_y: u64 = lo_y + p - 1;
    let vx_lo: i64 = v.center_x as i64 - v.half_width as i64;
    let vx_hi: i64 = v.center_x as i64 + v.half_width as i64;
    let vy_lo: i64 = v.center_y as i64 - v.half_height as i64;
    let vy_hi: i64 = v.center_y as i64 + v.half_height as i64;
    (lo_x as i64) <= vx_hi && vx_lo <= (hi_x as i64) && (lo_y as i64) <= vy_hi && vy_lo <= (hi_y
        as i64)
}

/// The four children of a quadtree node, indexed as `child_of`.
pub struct QuadChildren {
    pub c0: QuadTreeNode,
    pub c1: QuadTreeNode,
    pub c2: QuadTreeNode,
    pub c3: QuadTreeNode,
}

/// Represents a node in the quadtree.
pub struct QuadTreeNode {
    /// Tile ID for this node
    tile_id: TileId,
    /// Children nodes (if any)
    children: Option<Box<QuadChildren>>,
    /// Whether this node is visible
    visible: bool,
    /// Whether this node's tile is loaded
    loaded: bool,
}

impl QuadTreeNode {
    /// The node's address is valid and each present child carries exactly
    /// the address the quadtree subdivision assigns to it.
    pub closed spec fn wf_node(self) -> bool
        decreases self,
    {
        &&& self.tile_id.wf()
        &&& match self.children {
            Some(ch) => {
                &&& self.tile_id.zoom < MAX_ZOOM_LEVEL
                &&& ch.c0.tile_id == child_of(self.tile_id, 0)
                &&& ch.c1.tile_id == child_of(self.tile_id, 1)
                &&& ch.c2.tile_id == child_of(self.tile_id, 2)
                &&& ch.c3.tile_id == child_of(self.tile_id, 3)
                &&& ch.c0.wf_node()
                &&& ch.c1.wf_node()
                &&& ch.c2.wf_node()
                &&& ch.c3.wf_node()
            },
            None => true,
        }
    }

    pub closed spec fn spec_tile_id(self) -> TileId {
        self.tile_id
    }

    pub closed spec fn spec_visible(self) -> bool {
        self.visible
    }

    pub closed spec fn spec_loaded(self) -> bool {
        self.loaded
    }

    pub closed spec fn spec_has_children(self) -> bool {
        self.children is Some
    }

    pub closed spec fn spec_children(self) -> Option<Box<QuadChildren>> {
        self.children
    }

    /// Create a new quadtree node.
    pub fn new(tile_id: TileId) -> (n: QuadTreeNode)
        requires
            tile_id.wf(),
        ensures
            n.wf_node(),
            n.spec_tile_id() == tile_id,
            !n.spec_visible(),
            !n.spec_loaded(),
            !n.spec_has_children(),
    {
        QuadTreeNode { tile_id, children: None, visible: false, loaded: false }
    }

    /// Subdivide this node into four children; a node that already has
    /// children is left unchanged.
    pub fn subdivide(&mut self)
        requires
            old(self).wf_node(),
            old(self).spec_tile_id().zoom < MAX_ZOOM_LEVEL,
        ensures
            final(self).wf_node(),
            final(self).spec_tile_id() == old(self).spec_tile_id(),
            final(self).spec_visible() == old(self).spec_visible(),
            final(self).spec_loaded() == old(self).spec_loaded(),
            final(self).spec_has_children(),
            old(self).spec_has_children() ==> *final(self) == *old(self),
            old(self).children_all_invisible() ==> final(self).children_all_invisible(),
            !old(self).spec_has_children() ==> final(self).fresh_subdivided(),
    {
        if self.children.is_some() {
            return ;
        }
        proof {
            lemma_child_covers(self.tile_id, 0);
            lemma_child_covers(self.tile_id, 1);
            lemma_child_covers(self.tile_id, 2);
            lemma_child_covers(self.tile_id, 3);
        }
        let ids = self.tile_id.children();
        let ch = QuadChildren {
            c0: QuadTreeNode::new(ids[0]),
            c1: QuadTreeNode::new(ids[1]),
            c2: QuadTreeNode::new(ids[2]),
            c3: QuadTreeNode::new(ids[3]),
        };
        self.children = Some(Box::new(ch));
    }

    /// Merge children (remove subdivisions).
    pub fn merge(&mut self)
        requires
            old(self).wf_node(),
        ensures
            final(self).wf_node(),
            final(self).spec_tile_id() == old(self).spec_tile_id(),
            final(self).spec_visible() == old(self).spec_visible(),
            final(self).spec_loaded() == old(self).spec_loaded(),
            !final(self).spec_has_children(),
    {
        self.children = None;
    }

    /// Set the loaded state.
    pub fn set_loaded(&mut self, loaded: bool)
        requires
            old(self).wf_node(),
        ensures
            final(self).wf_node(),
            final(self).spec_tile_id() == old(self).spec_tile_id(),
            final(self).spec_visible() == old(self).spec_visible(),
            final(self).spec_loaded() == loaded,
            final(self).spec_children() == old(self).spec_children(),
    {
        self.loaded = loaded;
    }

    /// Set the visibility state.
    pub fn set_visible(&mut self, visible: bool)
        requires
            old(self).wf_node(),
        ensures
            final(self).wf_node(),
            final(self).spec_tile_id() == old(self).spec_tile_id(),
            final(self).spec_visible() == visible,
            final(self).spec_loaded() == old(self).spec_loaded(),
            final(self).spec_children() == old(self).spec_children(),
    {
        self.visible = visible;
    }

    /// Get the tile ID.
    pub fn tile_id(&self) -> (t: TileId)
        ensures
            t == self.spec_tile_id(),
    {
        self.tile_id
    }

    /// Get visibility state.
    pub fn is_visible(&self) -> (r: bool)
        ensures
            r == self.spec_visible(),
    {
        self.visible
    }

    /// Get loaded state.
    pub fn is_loaded(&self) -> (r: bool)
        ensures
            r == self.spec_loaded(),
    {
        self.loaded
    }

    /// Check if this node has children.
    pub fn has_children(&self) -> (r: bool)
        ensures
            r == self.spec_has_children(),
    {
        self.children.is_some()
    }

    /// Every node of this subtree carries a cleared visibility flag.
    pub closed spec fn all_invisible(self) -> bool
        decreases self,
    {
        &&& !self.visible
        &&& match self.children {
            Some(ch) => {
                &&& ch.c0.all_invisible()
                &&& ch.c1.all_invisible()
                &&& ch.c2.all_invisible()
                &&& ch.c3.all_invisible()
            },
            None => true,
        }
    }

    /// The children, if any, carry cleared visibility flags throughout.
    pub closed spec fn children_all_invisible(self) -> bool {
        match self.children {
            Some(ch) => {
                &&& ch.c0.all_invisible()
                &&& ch.c1.all_invisible()
                &&& ch.c2.all_invisible()
                &&& ch.c3.all_invisible()
            },
            None => true,
        }
    }

    /// The state the visibility pass leaves a subtree in: a node outside
    /// the view is invisible and merged; a node inside the view at (or
    /// past) the target zoom is visible and explored no deeper; a coarser
    /// node inside the view is visible and fully subdivided underneath.
    pub closed spec fn marked(self, v: TileView, target: u8) -> bool
        decreases self,
    {
        if !view_intersects(self.tile_id, v) {
            !self.visible && self.children is None
        } else if self.tile_id.zoom >= target {
            self.visible && self.children_all_invisible()
        } else {
            self.visible && match self.children {
                Some(ch) => {
                    &&& ch.c0.marked(v, target)
                    &&& ch.c1.marked(v, target)
                    &&& ch.c2.marked(v, target)
                    &&& ch.c3.marked(v, target)
                },
                None => false,
            }
        }
    }
}

/// Everything the collection pass reads off a marked subtree sits at or
/// above the target level of detail: no visible tile is finer than the
/// target zoom.
pub proof fn lemma_collect_zoom_bounded(n: QuadTreeNode, v: TileView, target: u8, max_zoom: u8)
    requires
        n.wf_node(),
        n.marked(v, target),
        n.spec_tile_id().zoom <= target,
    ensures
        forall|k: int|
            0 <= k < collect_spec(n, max_zoom).len() ==> (#[trigger] collect_spec(n, max_zoom)[k]).zoom
                <= target,
    decreases n,
{
    let s = collect_spec(n, max_zoom);
    let t = n.spec_tile_id();
    if !n.spec_visible() {
    } else if n.spec_children() is None || t.zoom == max_zoom {
        assert(s == seq![t]);
    } else {
        let ch = n.spec_children()->Some_0;
        let t0 = collect_spec(ch.c0, max_zoom);
        let t1 = collect_spec(ch.c1, max_zoom);
        let t2 = collect_spec(ch.c2, max_zoom);
        let t3 = collect_spec(ch.c3, max_zoom);
        let sub = t0 + t1 + t2 + t3;
        if t.zoom >= target {
            // the node stopped at the target: its children were left
            // invisible, so they collect nothing and the node stands alone
            assert(t0 =~= Seq::<TileId>::empty());
            assert(t1 =~= Seq::<TileId>::empty());
            assert(t2 =~= Seq::<TileId>::empty());
            assert(t3 =~= Seq::<TileId>::empty());
            assert(sub.len() == 0);
            assert(s == seq![t]);
        } else {
            lemma_collect_zoom_bounded(ch.c0, v, target, max_zoom);
            lemma_collect_zoom_bounded(ch.c1, v, target, max_zoom);
            lemma_collect_zoom_bounded(ch.c2, v, target, max_zoom);
            lemma_collect_zoom_bounded(ch.c3, v, target, max_zoom);
            assert forall|k: int| 0 <= k < sub.len() implies (#[trigger] sub[k]).zoom
                <= target by {
                if k < t0.len() {
                    assert(sub[k] == t0[k]);
                } else if k < t0.len() + t1.len() {
                    assert(sub[k] == t1[k - t0.len()]);
                } else if k < t0.len() + t1.len() + t2.len() {
                    assert(sub[k] == t2[k - t0.len() - t1.len()]);
                } else {
                    assert(sub[k] == t3[k - t0.len() - t1.len() - t2.len()]);
                }
            }
            if sub.len() == 0 {
                assert(s == seq![t]);
            } else {
                assert(s == sub);
            }
        }
    }
}

/// Completeness of the visibility pass: every valid tile at the target
/// zoom whose area overlaps the view is read off a marked subtree that
/// contains it.
pub proof fn lemma_collect_contains_target(
    n: QuadTreeNode,
    v: TileView,
    target: u8,
    max_zoom: u8,
    t: TileId,
)
    requires
        n.wf_node(),
        n.marked(v, target),
        n.spec_tile_id().zoom <= target,
        target <= v.zoom,
        target <= max_zoom,
        v.wf(),
        t.wf(),
        t.zoom == target,
        covers(n.spec_tile_id(), t),
        view_intersects(t, v),
    ensures
        collect_spec(n, max_zoom).contains(t),
    decreases n,
{
    let s = collect_spec(n, max_zoom);
    let nt = n.spec_tile_id();
    lemma_intersect_ancestor(nt, t, v);
    assert(view_intersects(nt, v));
    assert(n.spec_visible());
    if nt.zoom >= target {
        // this is the node for `t` itself
        lemma_covers_refl(t);
        lemma_covers_unique(nt, t, t);
        assert(nt == t);
        if n.spec_children() is None || nt.zoom == max_zoom {
            assert(s == seq![t]);
            assert(s[0] == t);
        } else {
            let ch = n.spec_children()->Some_0;
            assert(collect_spec(ch.c0, max_zoom) =~= Seq::<TileId>::empty());
            assert(collect_spec(ch.c1, max_zoom) =~= Seq::<TileId>::empty());
            assert(collect_spec(ch.c2, max_zoom) =~= Seq::<TileId>::empty());
            assert(collect_spec(ch.c3, max_zoom) =~= Seq::<TileId>::empty());
            assert(s == seq![t]);
            assert(s[0] == t);
        }
    } else {
        // descend into the one child whose area holds `t`
        let ch = n.spec_children()->Some_0;
        let i = path_index(nt, t);
        lemma_path_child_covers(nt, t);
        let c = if i == 0 {
            ch.c0
        } else if i == 1 {
            ch.c1
        } else if i == 2 {
            ch.c2
        } else {
            ch.c3
        };
        assert(c.spec_tile_id() == child_of(nt, i));
        lemma_collect_contains_target(c, v, target, max_zoom, t);
        let t0 = collect_spec(ch.c0, max_zoom);
        let t1 = collect_spec(ch.c1, max_zoom);
        let t2 = collect_spec(ch.c2, max_zoom);
        let t3 = collect_spec(ch.c3, max_zoom);
        let sub = t0 + t1 + t2 + t3;
        assert(sub.contains(t)) by {
            if i == 0 {
                let k = choose|k: int| 0 <= k < t0.len() && t0[k] == t;
                assert(sub[k] == t);
            } else if i == 1 {
                let k = choose|k: int| 0 <= k < t1.len() && t1[k] == t;
                assert(sub[t0.len() + k] == t);
            } else if i == 2 {
                let k = choose|k: int| 0 <= k < t2.len() && t2[k] == t;
                assert(sub[t0.len() + t1.len() + k] == t);
            } else {
                let k = choose|k: int| 0 <= k < t3.len() && t3[k] == t;
                assert(sub[t0.len() + t1.len() + t2.len() + k] == t);
            }
        }
        assert(sub.len() > 0);
        assert(s == sub);
    }
}

/// The tiles the collection pass reads off a subtree: nothing under an
/// invisible node; a visible node itself where subdivision stops; and
/// otherwise whatever its visible children yield, falling back to the node
/// itself when no child is visible.
pub closed spec fn collect_spec(n: QuadTreeNode, max_zoom: u8) -> Seq<TileId>
    decreases n,
{
    if !n.spec_visible() {
        Seq::empty()
    } else if n.spec_children() is None || n.spec_tile_id().zoom == max_zoom {
        seq![n.spec_tile_id()]
    } else {
        let ch = n.spec_children()->Some_0;
        let sub = collect_spec(ch.c0, max_zoom) + collect_spec(ch.c1, max_zoom) + collect_spec(
            ch.c2,
            max_zoom,
        ) + collect_spec(ch.c3, max_zoom);
        if sub.len() == 0 {
            seq![n.spec_tile_id()]
        } else {
            sub
        }
    }
}

/// No address in the list covers another: in particular no address is a
/// strict quadtree ancestor of another, and no address repeats.
pub open spec fn no_cover_pairs(s: Seq<TileId>) -> bool {
    forall|i: int, j: int|
        0 <= i < s.len() && 0 <= j < s.len() && i != j ==> !covers(s[i], s[j])
}

/// Everything in the list lies inside the area of `a`.
pub open spec fn all_covered_by(s: Seq<TileId>, a: TileId) -> bool {
    forall|i: int| 0 <= i < s.len() ==> covers(a, #[trigger] s[i]) && s[i].wf()
}

/// Descendants of two distinct same-zoom tiles never cover one another.
proof fn lemma_separated(a: TileId, b: TileId, x: TileId, y: TileId)
    requires
        covers(a, x),
        covers(b, y),
        a.zoom == b.zoom,
        a != b,
    ensures
        !covers(x, y),
{
    if covers(x, y) {
        lemma_covers_trans(a, x, y);
        lemma_covers_unique(a, b, y);
    }
}

/// Concatenating two lists that are each free of covering pairs, and
/// mutually free of them, yields a list free of covering pairs.
proof fn lemma_concat_no_cover(s1: Seq<TileId>, s2: Seq<TileId>)
    requires
        no_cover_pairs(s1),
        no_cover_pairs(s2),
        forall|i: int, j: int|
            0 <= i < s1.len() && 0 <= j < s2.len() ==> !covers(#[trigger] s1[i], #[trigger] s2[j])
                && !covers(s2[j], s1[i]),
    ensures
        no_cover_pairs(s1 + s2),
{
    let s = s1 + s2;
    let n = s1.len() as int;
    assert forall|i: int, j: int|
        0 <= i < s.len() && 0 <= j < s.len() && i != j implies !covers(s[i], s[j]) by {
        if i < n && j < n {
            assert(s[i] == s1[i] && s[j] == s1[j]);
        } else if i < n {
            assert(s[i] == s1[i] && s[j] == s2[j - n]);
        } else if j < n {
            assert(s[i] == s2[i - n] && s[j] == s1[j]);
        } else {
            assert(s[i] == s2[i - n] && s[j] == s2[j - n]);
        }
    }
}

/// Cross-subtree separation: lists of tiles lying under two distinct
/// children of one parent never cover one another.
proof fn lemma_cross_separated(s1: Seq<TileId>, s2: Seq<TileId>, a: TileId, b: TileId)
    requires
        all_covered_by(s1, a),
        all_covered_by(s2, b),
        a.zoom == b.zoom,
        a != b,
    ensures
        forall|i: int, j: int|
            0 <= i < s1.len() && 0 <= j < s2.len() ==> !covers(#[trigger] s1[i], #[trigger] s2[j])
                && !covers(s2[j], s1[i]),
{
    assert forall|i: int, j: int|
        0 <= i < s1.len() && 0 <= j < s2.len() implies !covers(s1[i], s2[j]) && !covers(
        s2[j],
        s1[i],
    ) by {
        lemma_separated(a, b, s1[i], s2[j]);
        lemma_separated(b, a, s2[j], s1[i]);
    }
}

/// What the collection pass yields from a well-formed subtree stays inside
/// the subtree's area and never exhibits double coverage: no collected
/// address is a strict quadtree ancestor of another (nor equal to it).
pub proof fn lemma_collect_no_cover(n: QuadTreeNode, max_zoom: u8)
    requires
        n.wf_node(),
    ensures
        all_covered_by(collect_spec(n, max_zoom), n.spec_tile_id()),
        no_cover_pairs(collect_spec(n, max_zoom)),
    decreases n,
{
    let s = collect_spec(n, max_zoom);
    let t = n.spec_tile_id();
    if !n.spec_visible() {
    } else if n.spec_children() is None || t.zoom == max_zoom {
        lemma_covers_refl(t);
        assert(s == seq![t]);
        assert forall|i: int, j: int|
            0 <= i < s.len() && 0 <= j < s.len() && i != j implies !covers(s[i], s[j]) by {
        }
    } else {
        let ch = n.spec_children()->Some_0;
        let t0 = collect_spec(ch.c0, max_zoom);
        let t1 = collect_spec(ch.c1, max_zoom);
        let t2 = collect_spec(ch.c2, max_zoom);
        let t3 = collect_spec(ch.c3, max_zoom);
        lemma_collect_no_cover(ch.c0, max_zoom);
        lemma_collect_no_cover(ch.c1, max_zoom);
        lemma_collect_no_cover(ch.c2, max_zoom);
        lemma_collect_no_cover(ch.c3, max_zoom);
        lemma_child_covers(t, 0);
        lemma_child_covers(t, 1);
        lemma_child_covers(t, 2);
        lemma_child_covers(t, 3);
        lemma_children_distinct(t, 0, 1);
        lemma_children_distinct(t, 0, 2);
        lemma_children_distinct(t, 0, 3);
        lemma_children_distinct(t, 1, 2);
        lemma_children_distinct(t, 1, 3);
        lemma_children_distinct(t, 2, 3);
        let sub = t0 + t1 + t2 + t3;
        // every collected tile lies inside the parent's area
        assert forall|i: int| 0 <= i < sub.len() implies covers(t, #[trigger] sub[i])
            && sub[i].wf() by {
            let c = if i < t0.len() {
                child_of(t, 0)
            } else if i < t0.len() + t1.len() {
                child_of(t, 1)
            } else if i < t0.len() + t1.len() + t2.len() {
                child_of(t, 2)
            } else {
                child_of(t, 3)
            };
            assert(covers(c, sub[i]) && sub[i].wf());
            lemma_covers_trans(t, c, sub[i]);
        }
        // pairwise: within one child by induction, across children by separation
        lemma_cross_separated(t0, t1, child_of(t, 0), child_of(t, 1));
        lemma_concat_no_cover(t0, t1);
        // the separation against t2 and t3 must come from the child level
        assert forall|i: int, j: int|
            0 <= i < (t0 + t1).len() && 0 <= j < t2.len() implies !covers(
            #[trigger] (t0 + t1)[i],
            #[trigger] t2[j],
        ) && !covers(t2[j], (t0 + t1)[i]) by {
            let c = if i < t0.len() {
                child_of(t, 0)
            } else {
                child_of(t, 1)
            };
            assert(covers(c, (t0 + t1)[i]));
            lemma_separated(c, child_of(t, 2), (t0 + t1)[i], t2[j]);
            lemma_separated(child_of(t, 2), c, t2[j], (t0 + t1)[i]);
        }
        lemma_concat_no_cover(t0 + t1, t2);
        assert forall|i: int, j: int|
            0 <= i < (t0 + t1 + t2).len() && 0 <= j < t3.len() implies !covers(
            #[trigger] (t0 + t1 + t2)[i],
            #[trigger] t3[j],
        ) && !covers(t3[j], (t0 + t1 + t2)[i]) by {
            let c = if i < t0.len() {
                child_of(t, 0)
            } else if i < t0.len() + t1.len() {
                child_of(t, 1)
            } else {
                child_of(t, 2)
            };
            assert(covers(c, (t0 + t1 + t2)[i]));
            lemma_separated(c, child_of(t, 3), (t0 + t1 + t2)[i], t3[j]);
            lemma_separated(child_of(t, 3), c, t3[j], (t0 + t1 + t2)[i]);
        }
        lemma_concat_no_cover(t0 + t1 + t2, t3);
        if sub.len() == 0 {
            lemma_covers_refl(t);
            assert(s == seq![t]);
        } else {
            assert(s == sub);
        }
    }
}

/// `b` is `a` with every visibility flag cleared: same addresses, same
/// structure, same loaded flags.
pub closed spec fn cleared_copy(a: QuadTreeNode, b: QuadTreeNode) -> bool
    decreases b,
{
    &&& b.tile_id == a.tile_id
    &&& b.loaded == a.loaded
    &&& !b.visible
    &&& match (a.children, b.children) {
        (Some(x), Some(y)) => {
            &&& cleared_copy(x.c0, y.c0)
            &&& cleared_copy(x.c1, y.c1)
            &&& cleared_copy(x.c2, y.c2)
            &&& cleared_copy(x.c3, y.c3)
        },
        (None, None) => true,
        _ => false,
    }
}

/// The children of `b`, if any, are the children of `a` with every
/// visibility flag cleared.
pub closed spec fn children_cleared(a: QuadTreeNode, b: QuadTreeNode) -> bool {
    match (a.children, b.children) {
        (Some(x), Some(y)) => {
            &&& cleared_copy(x.c0, y.c0)
            &&& cleared_copy(x.c1, y.c1)
            &&& cleared_copy(x.c2, y.c2)
            &&& cleared_copy(x.c3, y.c3)
        },
        (None, None) => true,
        _ => false,
    }
}

/// A subtree as the visibility pass creates it from nothing: nothing
/// loaded, subdivided only where the view wants more detail.
pub closed spec fn built_fresh(b: QuadTreeNode, v: TileView, target: u8) -> bool
    decreases b,
{
    &&& !b.loaded
    &&& if !view_intersects(b.tile_id, v) {
        !b.visible && b.children is None
    } else if b.tile_id.zoom >= target {
        b.visible && b.children is None
    } else {
        b.visible && match b.children {
            Some(y) => {
                &&& built_fresh(y.c0, v, target)
                &&& built_fresh(y.c1, v, target)
                &&& built_fresh(y.c2, v, target)
                &&& built_fresh(y.c3, v, target)
            },
            None => false,
        }
    }
}

/// How the marking pass reshapes an all-invisible subtree: outside the
/// view it merges; at or past the target zoom it only raises the
/// visibility flag, the subtree below staying exactly as it was; coarser
/// in-view nodes are subdivided (freshly where no children existed) and
/// reshaped recursively.
spec fn reshaped(a: QuadTreeNode, b: QuadTreeNode, v: TileView, target: u8) -> bool
    decreases b,
{
    &&& b.tile_id == a.tile_id
    &&& if !view_intersects(a.tile_id, v) {
        !b.visible && b.children is None && b.loaded == a.loaded
    } else if a.tile_id.zoom >= target {
        b.visible && b.loaded == a.loaded && b.children == a.children
    } else {
        &&& b.visible
        &&& b.loaded == a.loaded
        &&& match (a.children, b.children) {
            (Some(x), Some(y)) => {
                &&& reshaped(x.c0, y.c0, v, target)
                &&& reshaped(x.c1, y.c1, v, target)
                &&& reshaped(x.c2, y.c2, v, target)
                &&& reshaped(x.c3, y.c3, v, target)
            },
            (None, Some(y)) => {
                &&& built_fresh(y.c0, v, target)
                &&& built_fresh(y.c1, v, target)
                &&& built_fresh(y.c2, v, target)
                &&& built_fresh(y.c3, v, target)
            },
            _ => false,
        }
    }
}

/// How one visibility update turns the previous tree into the new one:
/// addresses and loaded flags are preserved everywhere that survives; a
/// node outside the view loses its children and its visibility; a node
/// at or past the target zoom becomes visible while its whole subtree is
/// kept (only visibility flags below it are cleared) -- in particular no
/// such node ever gains children, so the tree never deepens past the
/// target zoom; a coarser in-view node is subdivided, any children it
/// had to grow being fresh blank nodes.
pub closed spec fn tree_updated(a: QuadTreeNode, b: QuadTreeNode, v: TileView, target: u8) -> bool
    decreases b,
{
    &&& b.tile_id == a.tile_id
    &&& if !view_intersects(a.tile_id, v) {
        !b.visible && b.children is None && b.loaded == a.loaded
    } else if a.tile_id.zoom >= target {
        b.visible && b.loaded == a.loaded && children_cleared(a, b)
    } else {
        &&& b.visible
        &&& b.loaded == a.loaded
        &&& match (a.children, b.children) {
            (Some(x), Some(y)) => {
                &&& tree_updated(x.c0, y.c0, v, target)
                &&& tree_updated(x.c1, y.c1, v, target)
                &&& tree_updated(x.c2, y.c2, v, target)
                &&& tree_updated(x.c3, y.c3, v, target)
            },
            (None, Some(y)) => {
                &&& built_fresh(y.c0, v, target)
                &&& built_fresh(y.c1, v, target)
                &&& built_fresh(y.c2, v, target)
                &&& built_fresh(y.c3, v, target)
            },
            _ => false,
        }
    }
}

/// A reshaping of a blank node builds everything fresh.
proof fn lemma_reshaped_fresh(b: QuadTreeNode, v: TileView, target: u8, t: TileId)
    requires
        reshaped(fresh_node(t), b, v, target),
    ensures
        built_fresh(b, v, target),
{
}

/// Clearing all visibility and then reshaping amounts to one tree
/// update.
proof fn lemma_update_composes(
    a: QuadTreeNode,
    m: QuadTreeNode,
    b: QuadTreeNode,
    v: TileView,
    target: u8,
)
    requires
        cleared_copy(a, m),
        reshaped(m, b, v, target),
    ensures
        tree_updated(a, b, v, target),
    decreases b,
{
    if !view_intersects(a.tile_id, v) {
    } else if a.tile_id.zoom >= target {
        assert(b.children == m.children);
        match (a.children, b.children) {
            (Some(x), Some(y)) => {
                assert(m.children is Some);
            },
            (None, None) => {},
            _ => {
                assert(a.children is Some <==> m.children is Some);
            },
        }
    } else {
        match (a.children, b.children) {
            (Some(x), Some(y)) => {
                let mx = m.children->Some_0;
                lemma_update_composes(x.c0, mx.c0, y.c0, v, target);
                lemma_update_composes(x.c1, mx.c1, y.c1, v, target);
                lemma_update_composes(x.c2, mx.c2, y.c2, v, target);
                lemma_update_composes(x.c3, mx.c3, y.c3, v, target);
            },
            (None, Some(y)) => {
                assert(m.children is None);
            },
            _ => {
                assert(a.children is Some <==> m.children is Some);
            },
        }
    }
}

impl QuadTreeNode {
    /// Reset visibility of this node and everything below it.
    fn reset_visibility(&mut self)
        requires
            old(self).wf_node(),
        ensures
            final(self).wf_node(),
            final(self).all_invisible(),
            final(self).spec_tile_id() == old(self).spec_tile_id(),
            final(self).spec_tile_id().zoom == old(self).spec_tile_id().zoom,
            cleared_copy(*old(self), *final(self)),
        decreases MAX_ZOOM_LEVEL - old(self).spec_tile_id().zoom,
    {
        self.visible = false;
        match self.children.take() {
            Some(mut b) => {
                let m = &mut *b;
                m.c0.reset_visibility();
                m.c1.reset_visibility();
                m.c2.reset_visibility();
                m.c3.reset_visibility();
                self.children = Some(b);
                proof {
                    assert(cleared_copy(*old(self), *self));
                }
            },
            None => {},
        }
    }

    /// One pass of the visibility rule: merge outside the view, stop at
    /// the target zoom, subdivide and recurse where more detail is needed.
    fn update_visibility(&mut self, v: &TileView, target_zoom: u8)
        requires
            old(self).wf_node(),
            old(self).all_invisible(),
            old(self).spec_tile_id().zoom <= v.zoom,
            target_zoom <= v.zoom,
            v.wf(),
        ensures
            final(self).wf_node(),
            final(self).marked(*v, target_zoom),
            final(self).spec_tile_id() == old(self).spec_tile_id(),
            reshaped(*old(self), *final(self), *v, target_zoom),
        decreases target_zoom - old(self).spec_tile_id().zoom,
    {
        let t = self.tile_id;
        if !tile_intersects_view(&t, v) {
            self.merge();
            proof {
                assert(reshaped(*old(self), *self, *v, target_zoom));
            }
            return ;
        }
        self.set_visible(true);
        if t.zoom >= target_zoom {
            proof {
                assert(reshaped(*old(self), *self, *v, target_zoom));
            }
            return ;
        }
        self.subdivide();
        let ghost mid = *self;
        match self.children.take() {
            Some(mut b) => {
                let m = &mut *b;
                m.c0.update_visibility(v, target_zoom);
                m.c1.update_visibility(v, target_zoom);
                m.c2.update_visibility(v, target_zoom);
                m.c3.update_visibility(v, target_zoom);
                self.children = Some(b);
                proof {
                    if old(self).spec_has_children() {
                        assert(mid.children == old(self).spec_children());
                        assert(reshaped(*old(self), *self, *v, target_zoom));
                    } else {
                        assert(mid.fresh_subdivided());
                        let y = self.children->Some_0;
                        lemma_reshaped_fresh(y.c0, *v, target_zoom, child_of(t, 0));
                        lemma_reshaped_fresh(y.c1, *v, target_zoom, child_of(t, 1));
                        lemma_reshaped_fresh(y.c2, *v, target_zoom, child_of(t, 2));
                        lemma_reshaped_fresh(y.c3, *v, target_zoom, child_of(t, 3));
                        assert(reshaped(*old(self), *self, *v, target_zoom));
                    }
                }
            },
            None => {
                proof {
                    assert(false);
                }
            },
        }
    }
}

/// A quadtree for managing map tiles.
pub struct TileQuadtree {
    /// Root node of the quadtree
    root: QuadTreeNode,
    /// Maximum zoom level allowed
    max_zoom: u8,
    /// Current target zoom level
    current_zoom: u8,
}

/// The whole-world tile at the root of the pyramid.
pub open spec fn world_tile() -> TileId {
    TileId { zoom: 0, x: 0, y: 0 }
}

impl Default for TileQuadtree {
    /// A quadtree over the whole world, subdividing down to zoom 18.
    fn default() -> (q: TileQuadtree)
        ensures
            q.wf(),
            q.spec_max_zoom() == 18,
            q.spec_current_zoom() == 0,
    {
        TileQuadtree::new(18)
    }
}

impl TileQuadtree {
    pub closed spec fn wf(self) -> bool {
        &&& self.root.wf_node()
        &&& self.root.spec_tile_id() == world_tile()
        &&& MIN_ZOOM_LEVEL <= self.max_zoom <= MAX_ZOOM_LEVEL
    }

    pub closed spec fn root_spec(self) -> QuadTreeNode {
        self.root
    }

    pub closed spec fn spec_max_zoom(self) -> u8 {
        self.max_zoom
    }

    pub closed spec fn spec_current_zoom(self) -> u8 {
        self.current_zoom
    }

    /// The zoom the tree descends to for a view: the view's target zoom,
    /// clamped by the tree's maximum above.  Callers hand `update` a
    /// target no coarser than `MIN_ZOOM_LEVEL`, so together with the
    /// tree's bounds the effective target always lies in
    /// `[MIN_ZOOM_LEVEL, MAX_ZOOM_LEVEL]`.
    pub open spec fn target_zoom_spec(self, v: TileView) -> u8 {
        if v.zoom <= self.spec_max_zoom() {
            v.zoom
        } else {
            self.spec_max_zoom()
        }
    }

    /// Create a new quadtree with the specified maximum zoom level.
    pub fn new(max_zoom: u8) -> (q: TileQuadtree)
        requires
            MIN_ZOOM_LEVEL <= max_zoom <= MAX_ZOOM_LEVEL,
        ensures
            q.wf(),
            q.spec_max_zoom() == max_zoom,
            q.spec_current_zoom() == 0,
    {
        proof {
            lemma2_to64();
        }
        TileQuadtree {
            root: QuadTreeNode::new(TileId { zoom: 0, x: 0, y: 0 }),
            max_zoom,
            current_zoom: 0,
        }
    }

    /// Update the quadtree based on the current view: reset all
    /// visibility, then mark and reshape the tree for the view.  The
    /// effective target zoom is clamped into
    /// `[MIN_ZOOM_LEVEL, MAX_ZOOM_LEVEL]`: the view's target is never
    /// below the minimum, and the tree's maximum caps it above.
    pub fn update(&mut self, view: TileView)
        requires
            old(self).wf(),
            view.wf(),
            view.zoom >= MIN_ZOOM_LEVEL,
        ensures
            final(self).wf(),
            final(self).spec_max_zoom() == old(self).spec_max_zoom(),
            final(self).spec_current_zoom() == old(self).target_zoom_spec(view),
            MIN_ZOOM_LEVEL <= final(self).spec_current_zoom() <= MAX_ZOOM_LEVEL,
            final(self).spec_current_zoom() <= old(self).spec_max_zoom(),
            final(self).root_spec().marked(view, old(self).target_zoom_spec(view)),
            tree_updated(
                old(self).root_spec(),
                final(self).root_spec(),
                view,
                old(self).target_zoom_spec(view),
            ),
    {
        let target: u8 = if view.zoom <= self.max_zoom {
            view.zoom
        } else {
            self.max_zoom
        };
        self.current_zoom = target;
        self.root.reset_visibility();
        let ghost mid_root = self.root;
        self.root.update_visibility(&view, target);
        proof {
            lemma_update_composes(old(self).root_spec(), mid_root, self.root, view, target);
        }
    }

    /// Collect visible tiles from a node and its children.
    #[verifier::rlimit(40)]
    fn collect_visible_tiles(&self, node: &QuadTreeNode, tiles: &mut Vec<TileId>)
        requires
            node.wf_node(),
        ensures
            final(tiles)@ == old(tiles)@ + collect_spec(*node, self.spec_max_zoom()),
        decreases *node,
    {
        let ghost mz = self.spec_max_zoom();
        if !node.is_visible() {
            proof {
                assert(tiles@ =~= tiles@ + collect_spec(*node, mz));
            }
            return ;
        }
        if !node.has_children() || node.tile_id().zoom == self.max_zoom {
            tiles.push(node.tile_id());
            proof {
                assert(tiles@ =~= old(tiles)@ + collect_spec(*node, mz));
            }
            return ;
        }
        match &node.children {
            Some(b) => {
                let ghost ch = *node.spec_children()->Some_0;
                let ghost t0 = collect_spec(ch.c0, mz);
                let ghost t1 = collect_spec(ch.c1, mz);
                let ghost t2 = collect_spec(ch.c2, mz);
                let ghost t3 = collect_spec(ch.c3, mz);
                let mut any_child_visible = false;
                if b.c0.is_visible() {
                    any_child_visible = true;
                    self.collect_visible_tiles(&b.c0, tiles);
                } else {
                    proof {
                        assert(t0 =~= Seq::<TileId>::empty());
                    }
                }
                if b.c1.is_visible() {
                    any_child_visible = true;
                    self.collect_visible_tiles(&b.c1, tiles);
                } else {
                    proof {
                        assert(t1 =~= Seq::<TileId>::empty());
                    }
                }
                if b.c2.is_visible() {
                    any_child_visible = true;
                    self.collect_visible_tiles(&b.c2, tiles);
                } else {
                    proof {
                        assert(t2 =~= Seq::<TileId>::empty());
                    }
                }
                if b.c3.is_visible() {
                    any_child_visible = true;
                    self.collect_visible_tiles(&b.c3, tiles);
                } else {
                    proof {
                        assert(t3 =~= Seq::<TileId>::empty());
                    }
                }
                proof {
                    assert(tiles@ =~= old(tiles)@ + (t0 + t1 + t2 + t3));
                }
                if !any_child_visible {
                    tiles.push(node.tile_id());
                    proof {
                        assert((t0 + t1 + t2 + t3).len() == 0);
                        assert(tiles@ =~= old(tiles)@ + collect_spec(*node, mz));
                    }
                } else {
                    proof {
                        assert((t0 + t1 + t2 + t3).len() > 0);
                        assert(tiles@ =~= old(tiles)@ + collect_spec(*node, mz));
                    }
                }
            },
            None => {
                proof {
                    assert(false);
                }
            },
        }
    }

    /// Get all visible tile IDs that should be rendered: the coarsest
    /// visible nodes, with no parent-and-child double coverage.
    pub fn get_visible_tiles(&self) -> (tiles: Vec<TileId>)
        requires
            self.wf(),
        ensures
            tiles@ == collect_spec(self.root_spec(), self.spec_max_zoom()),
            no_cover_pairs(tiles@),
            forall|k: int| 0 <= k < tiles@.len() ==> (#[trigger] tiles@[k]).wf(),
    {
        let mut tiles: Vec<TileId> = Vec::new();
        self.collect_visible_tiles(&self.root, &mut tiles);
        proof {
            lemma_collect_no_cover(self.root_spec(), self.spec_max_zoom());
            assert(tiles@ =~= collect_spec(self.root_spec(), self.spec_max_zoom()));
        }
        tiles
    }

    /// After an update for a view, no visible tile is finer than the
    /// view's clamped target zoom: what `get_visible_tiles` returns is
    /// the coarsest cover at (or above) the wanted level of detail.
    pub proof fn lemma_visible_zoom_bounded(self, v: TileView)
        requires
            self.wf(),
            self.root_spec().marked(v, self.target_zoom_spec(v)),
        ensures
            forall|k: int|
                0 <= k < collect_spec(self.root_spec(), self.spec_max_zoom()).len() ==> (
                #[trigger] collect_spec(self.root_spec(), self.spec_max_zoom())[k]).zoom
                    <= self.target_zoom_spec(v),
    {
        lemma_collect_zoom_bounded(
            self.root_spec(),
            v,
            self.target_zoom_spec(v),
            self.spec_max_zoom(),
        );
    }

    /// After an update for a view, every valid tile at the effective
    /// target zoom whose area overlaps the view is among the visible
    /// tiles -- together with `lemma_visible_zoom_bounded`, the visible
    /// set is exactly a cover of the view at the wanted level of detail.
    pub proof fn lemma_visible_contains_target(self, v: TileView, t: TileId)
        requires
            self.wf(),
            self.root_spec().marked(v, self.target_zoom_spec(v)),
            v.wf(),
            t.wf(),
            t.zoom == self.target_zoom_spec(v),
            view_intersects(t, v),
        ensures
            collect_spec(self.root_spec(), self.spec_max_zoom()).contains(t),
    {
        lemma_world_covers(t);
        lemma_collect_contains_target(
            self.root_spec(),
            v,
            self.target_zoom_spec(v),
            self.spec_max_zoom(),
            t,
        );
    }

    /// Set the maximum zoom level.
    pub fn set_max_zoom(&mut self, max_zoom: u8)
        requires
            old(self).wf(),
            MIN_ZOOM_LEVEL <= max_zoom <= MAX_ZOOM_LEVEL,
        ensures
            final(self).wf(),
            final(self).spec_max_zoom() == max_zoom,
            final(self).root_spec() == old(self).root_spec(),
            final(self).spec_current_zoom() == old(self).spec_current_zoom(),
    {
        self.max_zoom = max_zoom;
    }

    /// Get the current target zoom level.
    pub fn current_zoom(&self) -> (z: u8)
        ensures
            z == self.spec_current_zoom(),
    {
        self.current_zoom
    }

    /// Check if a specific tile should be loaded: any tile no deeper than
    /// the maximum zoom level qualifies.
    pub fn should_load_tile(&self, id: TileId) -> (r: bool)
        ensures
            r == (id.zoom <= self.spec_max_zoom()),
    {
        id.zoom <= self.max_zoom
    }
}

/// No address repeats in the list.
pub open spec fn tile_seq_distinct(s: Seq<TileId>) -> bool {
    forall|i: int, j: int| 0 <= i < j < s.len() ==> s[i] != s[j]
}

/// Membership in the load set for a list of visible tiles: the visible
/// tiles themselves plus one ring of same-zoom neighbors around each.
pub open spec fn in_load_set(x: TileId, vis: Seq<TileId>) -> bool {
    vis.contains(x) || exists|i: int| 0 <= i < vis.len() && adjacent_seq(#[trigger] vis[i]).contains(x)
}

/// Membership restricted to the first `n` visible tiles.
pub open spec fn in_load_prefix(x: TileId, vis: Seq<TileId>, n: int) -> bool {
    (exists|k: int| 0 <= k < n && vis[k] == x) || (exists|k: int|
        0 <= k < n && adjacent_seq(#[trigger] vis[k]).contains(x))
}

/// Whether the list holds the given address.
fn vec_contains_tile(v: &Vec<TileId>, t: &TileId) -> (r: bool)
    ensures
        r == v@.contains(*t),
{
    let mut i: usize = 0;
    while i < v.len()
        invariant
            i <= v@.len(),
            forall|j: int| 0 <= j < i ==> v@[j] != *t,
        decreases v@.len() - i,
    {
        if v[i] == *t {
            return true;
        }
        i = i + 1;
    }
    proof {
        assert(forall|j: int| 0 <= j < v@.len() ==> v@[j] != *t);
    }
    false
}

/// Append an address unless it is already present.
fn push_unique(v: &mut Vec<TileId>, t: TileId)
    requires
        tile_seq_distinct(old(v)@),
    ensures
        tile_seq_distinct(final(v)@),
        forall|x: TileId| final(v)@.contains(x) == (old(v)@.contains(x) || x == t),
{
    if !vec_contains_tile(v, &t) {
        let ghost s0 = v@;
        v.push(t);
        proof {
            let s1 = v@;
            let n = s0.len() as int;
            assert forall|i: int, j: int| 0 <= i < j < s1.len() implies s1[i] != s1[j] by {
                if j < n {
                    assert(s0[i] != s0[j]);
                } else {
                    assert(s1[i] == s0[i] && s1[j] == t);
                    assert(s0.contains(s0[i]));
                }
            }
            assert forall|x: TileId| s1.contains(x) == (s0.contains(x) || x == t) by {
                if s0.contains(x) {
                    let k = choose|k: int| 0 <= k < s0.len() && s0[k] == x;
                    assert(s1[k] == x);
                }
                if x == t {
                    assert(s1[n] == x);
                }
                if s1.contains(x) {
                    let k = choose|k: int| 0 <= k < s1.len() && s1[k] == x;
                    if k < n {
                        assert(s0[k] == x);
                    }
                }
            }
        }
    }
}

impl TileQuadtree {
    /// Get all tile IDs that should be loaded: the visible tiles plus one
    /// ring of adjacent tiles each, for prefetching, with no duplicates.
    #[verifier::rlimit(60)]
    pub fn get_tiles_to_load(&self) -> (out: Vec<TileId>)
        requires
            self.wf(),
        ensures
            tile_seq_distinct(out@),
            forall|x: TileId|
                out@.contains(x) <==> in_load_set(
                    x,
                    collect_spec(self.root_spec(), self.spec_max_zoom()),
                ),
    {
        let visible_tiles = self.get_visible_tiles();
        let ghost vis = visible_tiles@;
        let mut out: Vec<TileId> = Vec::new();
        let mut i: usize = 0;
        while i < visible_tiles.len()
            invariant
                vis == collect_spec(self.root_spec(), self.spec_max_zoom()),
                visible_tiles@ == vis,
                forall|k: int| 0 <= k < vis.len() ==> (#[trigger] vis[k]).wf(),
                i <= vis.len(),
                tile_seq_distinct(out@),
                forall|x: TileId| out@.contains(x) <==> in_load_prefix(x, vis, i as int),
            decreases vis.len() - i,
        {
            let t = visible_tiles[i];
            push_unique(&mut out, t);
            let adj = t.get_adjacent_tiles();
            let mut j: usize = 0;
            while j < adj.len()
                invariant
                    vis == collect_spec(self.root_spec(), self.spec_max_zoom()),
                    visible_tiles@ == vis,
                    i < vis.len(),
                    t == vis[i as int],
                    adj@ == adjacent_seq(t),
                    j <= adj@.len(),
                    tile_seq_distinct(out@),
                    forall|x: TileId|
                        out@.contains(x) <==> (in_load_prefix(x, vis, i as int) || x == t || (
                        exists|l: int| 0 <= l < j && adj@[l] == x)),
                decreases adj@.len() - j,
            {
                push_unique(&mut out, adj[j]);
                proof {
                    assert(adj@[j as int] == adj@[j as int]);
                }
                j = j + 1;
            }
            proof {
                assert forall|x: TileId|
                    out@.contains(x) <==> in_load_prefix(x, vis, i as int + 1) by {
                    if out@.contains(x) {
                        if in_load_prefix(x, vis, i as int) {
                            assert(in_load_prefix(x, vis, i as int + 1));
                        } else if x == t {
                            assert(vis[i as int] == x);
                        } else {
                            let l = choose|l: int| 0 <= l < adj@.len() && adj@[l] == x;
                            assert(adjacent_seq(vis[i as int]).contains(x));
                        }
                    }
                    if in_load_prefix(x, vis, i as int + 1) {
                        if exists|k: int| 0 <= k < i as int + 1 && vis[k] == x {
                            let k = choose|k: int| 0 <= k < i as int + 1 && vis[k] == x;
                            if k < i as int {
                                assert(in_load_prefix(x, vis, i as int));
                            } else {
                                assert(x == t);
                            }
                        } else {
                            let k = choose|k: int|
                                0 <= k < i as int + 1 && adjacent_seq(#[trigger] vis[k]).contains(
                                    x,
                                );
                            if k < i as int {
                                assert(in_load_prefix(x, vis, i as int));
                            } else {
                                let l = choose|l: int|
                                    0 <= l < adjacent_seq(t).len() && adjacent_seq(t)[l] == x;
                                assert(adj@[l] == x);
                            }
                        }
                    }
                }
            }
            i = i + 1;
        }
        proof {
            assert forall|x: TileId| out@.contains(x) <==> in_load_set(x, vis) by {
                if out@.contains(x) {
                    assert(in_load_prefix(x, vis, vis.len() as int));
                    if exists|k: int| 0 <= k < vis.len() && vis[k] == x {
                        let k = choose|k: int| 0 <= k < vis.len() && vis[k] == x;
                        assert(vis.contains(x));
                    }
                }
                if in_load_set(x, vis) {
                    if vis.contains(x) {
                        let k = choose|k: int| 0 <= k < vis.len() && vis[k] == x;
                        assert(in_load_prefix(x, vis, vis.len() as int));
                    } else {
                        assert(in_load_prefix(x, vis, vis.len() as int));
                    }
                }
            }
        }
        out
    }
}

/// The loaded flags of tree `b` are those of tree `a` refreshed against
/// the list `s`: same structure, same addresses, same visibility, and each
/// node's flag records whether its address is in `s`.
pub open spec fn loaded_update(a: QuadTreeNode, b: QuadTreeNode, s: Seq<TileId>) -> bool
    decreases b,
{
    &&& b.spec_tile_id() == a.spec_tile_id()
    &&& b.spec_visible() == a.spec_visible()
    &&& b.spec_loaded() == s.contains(b.spec_tile_id())
    &&& match (a.spec_children(), b.spec_children()) {
        (Some(x), Some(y)) => {
            &&& loaded_update(x.c0, y.c0, s)
            &&& loaded_update(x.c1, y.c1, s)
            &&& loaded_update(x.c2, y.c2, s)
            &&& loaded_update(x.c3, y.c3, s)
        },
        (None, None) => true,
        _ => false,
    }
}

impl QuadTreeNode {
    /// Refresh the loaded flag of this subtree against the list of loaded
    /// addresses.
    fn refresh_loaded(&mut self, loaded_tiles: &Vec<TileId>)
        requires
            old(self).wf_node(),
        ensures
            final(self).wf_node(),
            loaded_update(*old(self), *final(self), loaded_tiles@),
        decreases MAX_ZOOM_LEVEL - old(self).spec_tile_id().zoom,
    {
        self.loaded = vec_contains_tile(loaded_tiles, &self.tile_id);
        match self.children.take() {
            Some(mut b) => {
                let m = &mut *b;
                m.c0.refresh_loaded(loaded_tiles);
                m.c1.refresh_loaded(loaded_tiles);
                m.c2.refresh_loaded(loaded_tiles);
                m.c3.refresh_loaded(loaded_tiles);
                self.children = Some(b);
            },
            None => {},
        }
    }
}

impl TileQuadtree {
    /// Update the loaded state of every node from the list of loaded
    /// addresses.
    pub fn update_loaded_state(&mut self, loaded_tiles: &Vec<TileId>)
        requires
            old(self).wf(),
        ensures
            final(self).wf(),
            final(self).spec_max_zoom() == old(self).spec_max_zoom(),
            final(self).spec_current_zoom() == old(self).spec_current_zoom(),
            loaded_update(old(self).root_spec(), final(self).root_spec(), loaded_tiles@),
    {
        self.root.refresh_loaded(loaded_tiles);
    }
}

/// A node as `QuadTreeNode::new` creates it: no children, not visible,
/// not loaded.
pub closed spec fn fresh_node(t: TileId) -> QuadTreeNode {
    QuadTreeNode { tile_id: t, children: None, visible: false, loaded: false }
}

/// Which child of `t` the walk towards `id` descends into (meaningful
/// when `t` strictly contains `id`).
pub closed spec fn path_index(t: TileId, id: TileId) -> int {
    let d = (id.zoom - t.zoom) as nat;
    let qx = id.x as int / pow2((d - 1) as nat) as int;
    let qy = id.y as int / pow2((d - 1) as nat) as int;
    2 * (qy % 2) + (qx % 2)
}

/// How a walk towards `id` reshapes a subtree: visibility is untouched
/// everywhere; off the path every node -- flags, children and all -- is
/// exactly as it was (or a freshly created blank node where the path had
/// to be built); on the path only the terminal node's loaded flag is
/// raised, and only when `mark` is set.
pub closed spec fn walk_rel(a: QuadTreeNode, b: QuadTreeNode, id: TileId, mark: bool) -> bool
    decreases b,
{
    &&& b.tile_id == a.tile_id
    &&& b.visible == a.visible
    &&& if a.tile_id.zoom >= id.zoom {
        b.children == a.children && b.loaded == (a.loaded || mark)
    } else {
        let i = path_index(a.tile_id, id);
        &&& b.loaded == a.loaded
        &&& match (a.children, b.children) {
            (Some(x), Some(y)) => {
                &&& (i == 0 ==> walk_rel(x.c0, y.c0, id, mark) && y.c1 == x.c1 && y.c2 == x.c2
                    && y.c3 == x.c3)
                &&& (i == 1 ==> walk_rel(x.c1, y.c1, id, mark) && y.c0 == x.c0 && y.c2 == x.c2
                    && y.c3 == x.c3)
                &&& (i == 2 ==> walk_rel(x.c2, y.c2, id, mark) && y.c0 == x.c0 && y.c1 == x.c1
                    && y.c3 == x.c3)
                &&& (i == 3 ==> walk_rel(x.c3, y.c3, id, mark) && y.c0 == x.c0 && y.c1 == x.c1
                    && y.c2 == x.c2)
            },
            (None, Some(y)) => {
                &&& (i == 0 ==> walk_rel(fresh_node(child_of(a.tile_id, 0)), y.c0, id, mark)
                    && y.c1 == fresh_node(child_of(a.tile_id, 1)) && y.c2 == fresh_node(
                    child_of(a.tile_id, 2),
                ) && y.c3 == fresh_node(child_of(a.tile_id, 3)))
                &&& (i == 1 ==> walk_rel(fresh_node(child_of(a.tile_id, 1)), y.c1, id, mark)
                    && y.c0 == fresh_node(child_of(a.tile_id, 0)) && y.c2 == fresh_node(
                    child_of(a.tile_id, 2),
                ) && y.c3 == fresh_node(child_of(a.tile_id, 3)))
                &&& (i == 2 ==> walk_rel(fresh_node(child_of(a.tile_id, 2)), y.c2, id, mark)
                    && y.c0 == fresh_node(child_of(a.tile_id, 0)) && y.c1 == fresh_node(
                    child_of(a.tile_id, 1),
                ) && y.c3 == fresh_node(child_of(a.tile_id, 3)))
                &&& (i == 3 ==> walk_rel(fresh_node(child_of(a.tile_id, 3)), y.c3, id, mark)
                    && y.c0 == fresh_node(child_of(a.tile_id, 0)) && y.c1 == fresh_node(
                    child_of(a.tile_id, 1),
                ) && y.c2 == fresh_node(child_of(a.tile_id, 2)))
            },
            _ => false,
        }
    }
}

impl QuadTreeNode {
    /// The children are exactly the four blank nodes a subdivision
    /// creates.
    pub closed spec fn fresh_subdivided(self) -> bool {
        match self.children {
            Some(ch) => {
                &&& ch.c0 == fresh_node(child_of(self.tile_id, 0))
                &&& ch.c1 == fresh_node(child_of(self.tile_id, 1))
                &&& ch.c2 == fresh_node(child_of(self.tile_id, 2))
                &&& ch.c3 == fresh_node(child_of(self.tile_id, 3))
            },
            None => false,
        }
    }

    /// Whether a node for the tile `id` exists in this subtree.
    pub closed spec fn has_node_for(self, id: TileId) -> bool
        decreases self,
    {
        if self.tile_id.zoom >= id.zoom {
            self.tile_id == id
        } else {
            match self.children {
                Some(ch) => ch.c0.has_node_for(id) || ch.c1.has_node_for(id) || ch.c2.has_node_for(
                    id,
                ) || ch.c3.has_node_for(id),
                None => false,
            }
        }
    }

    /// Whether the subtree records the tile `id` as loaded at its exact
    /// node.
    pub closed spec fn loaded_at(self, id: TileId) -> bool
        decreases self,
    {
        if self.tile_id.zoom >= id.zoom {
            self.tile_id == id && self.loaded
        } else {
            match self.children {
                Some(ch) => ch.c0.loaded_at(id) || ch.c1.loaded_at(id) || ch.c2.loaded_at(id)
                    || ch.c3.loaded_at(id),
                None => false,
            }
        }
    }

    /// Walk down to the node for `id`, subdividing along the way, and mark
    /// it loaded when `mark` is set.
    fn walk_to_tile(&mut self, id: TileId, mark: bool)
        requires
            old(self).wf_node(),
            id.wf(),
            covers(old(self).spec_tile_id(), id),
        ensures
            final(self).wf_node(),
            final(self).spec_tile_id() == old(self).spec_tile_id(),
            mark ==> final(self).loaded_at(id),
            final(self).has_node_for(id),
            walk_rel(*old(self), *final(self), id, mark),
        decreases id.zoom - old(self).spec_tile_id().zoom,
    {
        let t = self.tile_id;
        if t.zoom == id.zoom {
            proof {
                lemma_covers_refl(id);
                lemma_covers_unique(t, id, id);
            }
            if mark {
                self.loaded = true;
            }
            proof {
                assert(walk_rel(*old(self), *self, id, mark));
            }
            return ;
        }
        proof {
            assert(t.zoom < id.zoom);
            assert(id.zoom <= MAX_ZOOM_LEVEL);
        }
        self.subdivide();
        let d: u8 = id.zoom - t.zoom;
        let qx: u32 = id.x >> ((d - 1) as u32);
        let qy: u32 = id.y >> ((d - 1) as u32);
        let bx: u32 = qx & 1;
        let by: u32 = qy & 1;
        proof {
            let dd = (d - 1) as nat;
            lemma_pow2_pos(dd);
            vstd::bits::lemma_u32_shr_is_div(id.x, (d - 1) as u32);
            vstd::bits::lemma_u32_shr_is_div(id.y, (d - 1) as u32);
            assert(qx & 1 == qx % 2) by (bit_vector);
            assert(qy & 1 == qy % 2) by (bit_vector);
            lemma2_to64();
            vstd::arithmetic::div_mod::lemma_div_denominator(id.x as int, pow2(dd) as int, 2);
            vstd::arithmetic::div_mod::lemma_div_denominator(id.y as int, pow2(dd) as int, 2);
            lemma_pow2_adds(dd, 1);
            assert(qx as int / 2 == t.x as int);
            assert(qy as int / 2 == t.y as int);
            vstd::arithmetic::div_mod::lemma_fundamental_div_mod(qx as int, 2);
            vstd::arithmetic::div_mod::lemma_fundamental_div_mod(qy as int, 2);
            assert(qx == 2 * t.x + bx && qy == 2 * t.y + by);
        }
        let idx: u32 = 2 * by + bx;
        let ghost i = idx as int;
        proof {
            assert(child_of(t, i).zoom == t.zoom + 1);
            assert(child_of(t, i).x == qx && child_of(t, i).y == qy);
            assert(covers(child_of(t, i), id));
            assert(i == path_index(t, id));
        }
        let ghost mid = *self;
        match self.children.take() {
            Some(mut b) => {
                let m = &mut *b;
                if idx == 0 {
                    m.c0.walk_to_tile(id, mark);
                } else if idx == 1 {
                    m.c1.walk_to_tile(id, mark);
                } else if idx == 2 {
                    m.c2.walk_to_tile(id, mark);
                } else {
                    m.c3.walk_to_tile(id, mark);
                }
                self.children = Some(b);
                proof {
                    assert(self.has_node_for(id));
                    assert(walk_rel(mid, *self, id, mark));
                    if old(self).spec_has_children() {
                        assert(mid == *old(self));
                    } else {
                        assert(mid.fresh_subdivided());
                        assert(walk_rel(*old(self), *self, id, mark));
                    }
                }
            },
            None => {
                proof {
                    assert(false);
                }
            },
        }
    }

    /// Check if this node's area contains the tile-space point `(x, y)`
    /// given at zoom level `zoom`.
    pub fn contains(&self, x: u32, y: u32, zoom: u8) -> (r: bool)
        requires
            self.wf_node(),
            (TileId { zoom, x, y }).wf(),
        ensures
            r == covers(self.spec_tile_id(), TileId { zoom, x, y }),
    {
        let t = self.tile_id;
        if zoom < t.zoom {
            return false;
        }
        let d: u32 = (zoom - t.zoom) as u32;
        proof {
            vstd::bits::lemma_u32_shr_is_div(x, d);
            vstd::bits::lemma_u32_shr_is_div(y, d);
            lemma_pow2_pos(d as nat);
        }
        (x >> d) == t.x && (y >> d) == t.y
    }
}

impl TileQuadtree {
    /// Insert a successfully loaded tile into the quadtree, creating the
    /// path of nodes leading to it if needed and marking it loaded.
    pub fn insert_tile(&mut self, id: TileId, entity: u64, texture_size: u32)
        requires
            old(self).wf(),
            id.wf(),
        ensures
            final(self).wf(),
            final(self).spec_max_zoom() == old(self).spec_max_zoom(),
            final(self).spec_current_zoom() == old(self).spec_current_zoom(),
            final(self).root_spec().loaded_at(id),
            final(self).root_spec().has_node_for(id),
            walk_rel(old(self).root_spec(), final(self).root_spec(), id, true),
    {
        let _ = entity;
        let _ = texture_size;
        proof {
            lemma_world_covers(id);
        }
        self.root.walk_to_tile(id, true);
    }

    /// Record a failed tile load: the path of nodes is created so later
    /// bookkeeping can find it, but nothing is marked loaded.
    pub fn insert_failed_tile(&mut self, id: TileId, entity: u64)
        requires
            old(self).wf(),
            id.wf(),
        ensures
            final(self).wf(),
            final(self).spec_max_zoom() == old(self).spec_max_zoom(),
            final(self).spec_current_zoom() == old(self).spec_current_zoom(),
            final(self).root_spec().has_node_for(id),
            walk_rel(old(self).root_spec(), final(self).root_spec(), id, false),
    {
        let _ = entity;
        proof {
            lemma_world_covers(id);
        }
        self.root.walk_to_tile(id, false);
    }
}

/// The whole-world tile contains every valid address.
pub proof fn lemma_world_covers(id: TileId)
    requires
        id.wf(),
    ensures
        covers(world_tile(), id),
{
    let d = id.zoom as nat;
    lemma_pow2_pos(d);
    vstd::arithmetic::div_mod::lemma_basic_div(id.x as int, pow2(d) as int);
    vstd::arithmetic::div_mod::lemma_basic_div(id.y as int, pow2(d) as int);
}

} // verus!