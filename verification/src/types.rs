//! Tile addressing: the quadtree cell key, its validity invariant, and the
//! ancestor/containment relation between cells at different zoom levels.

use vstd::prelude::*;
use vstd::arithmetic::power2::{pow2, lemma_pow2_adds, lemma_pow2_pos, lemma2_to64};
use vstd::arithmetic::div_mod::lemma_div_denominator;
use vstd::bits::{lemma_u32_shl_is_mul, lemma_u64_shl_is_mul};

verus! {

/// Coarsest zoom level the system will ever request.
pub const MIN_ZOOM_LEVEL: u8 = 1;

/// Finest zoom level the system will ever request.
pub const MAX_ZOOM_LEVEL: u8 = 19;

/// Zoom levels at or below this are treated as wide background context.
pub const BACKGROUND_ZOOM_LEVEL: u8 = 2;

/// The zoom level world coordinates are measured in: one world unit is
/// one tile at this zoom.
pub const DEFAULT_ZOOM_LEVEL: u8 = 13;

/// The largest valid tile coordinate at the finest zoom level.
pub const MAX_TILE_INDEX: u32 = 524287;

/// Tile coordinates of Groningen, Netherlands at the default zoom level.
pub const GRONINGEN_X: u32 = 4216;

/// Tile coordinates of Groningen, Netherlands at the default zoom level.
pub const GRONINGEN_Y: u32 = 2668;

/// Represents a unique tile ID: one cell of the quadtree pyramid.
#[derive(Debug, Clone, Copy, PartialEq, Eq, Hash, Structural)]
pub struct TileId {
    /// Zoom level (0-19)
    pub zoom: u8,
    /// X coordinate
    pub x: u32,
    /// Y coordinate
    pub y: u32,
}

impl TileId {
    /// A tile address is valid when both coordinates lie inside the
    /// 2^zoom x 2^zoom grid of its zoom level.
    pub open spec fn wf(self) -> bool {
        &&& self.zoom <= MAX_ZOOM_LEVEL
        &&& (self.x as nat) < pow2(self.zoom as nat)
        &&& (self.y as nat) < pow2(self.zoom as nat)
    }

    /// Create a new tile ID.
    pub fn new(zoom: u8, x: u32, y: u32) -> (t: TileId)
        ensures
            t == (TileId { zoom, x, y }),
    {
        TileId { zoom, x, y }
    }

    /// Return the children tiles (one zoom level deeper).
    pub fn children(&self) -> (c: Vec<TileId>)
        requires
            self.wf(),
            self.zoom < MAX_ZOOM_LEVEL,
        ensures
            c@ == child_seq(*self),
    {
        proof {
            lemma_child_coords_wf(*self);
        }
        let zoom: u8 = self.zoom + 1;
        let x: u32 = self.x * 2;
        let y: u32 = self.y * 2;
        let mut c: Vec<TileId> = Vec::new();
        c.push(TileId { zoom, x, y });
        c.push(TileId { zoom, x: x + 1, y });
        c.push(TileId { zoom, x, y: y + 1 });
        c.push(TileId { zoom, x: x + 1, y: y + 1 });
        proof {
            assert(c@ =~= child_seq(*self));
        }
        c
    }
}

/// The four children of a tile, in the order: north-west, north-east,
/// south-west, south-east.
pub open spec fn child_of(t: TileId, i: int) -> TileId {
    TileId {
        zoom: (t.zoom + 1) as u8,
        x: (2 * t.x + if i % 2 == 1 { 1int } else { 0int }) as u32,
        y: (2 * t.y + if i / 2 == 1 { 1int } else { 0int }) as u32,
    }
}

pub open spec fn child_seq(t: TileId) -> Seq<TileId> {
    seq![child_of(t, 0), child_of(t, 1), child_of(t, 2), child_of(t, 3)]
}

/// `covers(a, t)` holds when the area of tile `t` lies inside the area of
/// tile `a`: scaling `t`'s coordinates down by the zoom difference lands
/// exactly on `a`'s coordinates.  It is reflexive; `a` is a strict quadtree
/// ancestor of `t` when additionally `a.zoom < t.zoom`.
pub open spec fn covers(a: TileId, t: TileId) -> bool {
    &&& a.zoom <= t.zoom
    &&& t.x as int / pow2((t.zoom - a.zoom) as nat) as int == a.x as int
    &&& t.y as int / pow2((t.zoom - a.zoom) as nat) as int == a.y as int
}

pub proof fn lemma_covers_refl(t: TileId)
    ensures
        covers(t, t),
{
    lemma2_to64();
    assert(pow2(0) == 1);
    assert(t.x as int / 1int == t.x as int) by (nonlinear_arith);
    assert(t.y as int / 1int == t.y as int) by (nonlinear_arith);
}

/// Containment is transitive: an ancestor of an ancestor is an ancestor.
pub proof fn lemma_covers_trans(a: TileId, b: TileId, c: TileId)
    requires
        covers(a, b),
        covers(b, c),
    ensures
        covers(a, c),
{
    let d1 = (c.zoom - b.zoom) as nat;
    let d2 = (b.zoom - a.zoom) as nat;
    lemma_pow2_pos(d1);
    lemma_pow2_pos(d2);
    lemma_div_denominator(c.x as int, pow2(d1) as int, pow2(d2) as int);
    lemma_div_denominator(c.y as int, pow2(d1) as int, pow2(d2) as int);
    lemma_pow2_adds(d1, d2);
}

/// A tile has at most one ancestor at each zoom level.
pub proof fn lemma_covers_unique(a: TileId, b: TileId, t: TileId)
    requires
        covers(a, t),
        covers(b, t),
        a.zoom == b.zoom,
    ensures
        a == b,
{
}

/// Each child's area lies inside its parent's area.
pub proof fn lemma_child_covers(t: TileId, i: int)
    requires
        t.wf(),
        t.zoom < MAX_ZOOM_LEVEL,
        0 <= i < 4,
    ensures
        covers(t, child_of(t, i)),
        child_of(t, i).wf(),
        child_of(t, i).zoom == t.zoom + 1,
{
    lemma_child_coords_wf(t);
    lemma2_to64();
    let c = child_of(t, i);
    assert(pow2(1) == 2);
    assert(c.x as int / 2 == t.x as int);
    assert(c.y as int / 2 == t.y as int);
}

/// Distinct children of one parent are distinct addresses.
pub proof fn lemma_children_distinct(t: TileId, i: int, j: int)
    requires
        t.wf(),
        t.zoom < MAX_ZOOM_LEVEL,
        0 <= i < 4,
        0 <= j < 4,
        i != j,
    ensures
        child_of(t, i) != child_of(t, j),
{
    lemma_child_coords_wf(t);
}

/// The child coordinates 2x, 2x+1 stay within the next zoom level's grid.
proof fn lemma_child_coords_wf(t: TileId)
    requires
        t.wf(),
        t.zoom < MAX_ZOOM_LEVEL,
    ensures
        2 * t.x + 1 < pow2((t.zoom + 1) as nat),
        2 * t.y + 1 < pow2((t.zoom + 1) as nat),
        pow2((t.zoom + 1) as nat) <= u32::MAX,
{
    lemma_pow2_adds(t.zoom as nat, 1);
    lemma2_to64();
    assert(pow2((t.zoom + 1) as nat) == pow2(t.zoom as nat) * 2);
    assert(pow2(20) == 0x100000);
}

/// `2^zoom`, the number of tiles along each axis of a zoom level.
pub fn pow2_u64(e: u8) -> (r: u64)
    requires
        e <= 20,
    ensures
        r as nat == pow2(e as nat),
{
    proof {
        lemma2_to64();
        if e < 20 {
            vstd::arithmetic::power2::lemma_pow2_strictly_increases(e as nat, 20);
        }
        lemma_u64_shl_is_mul(1u64, e as u64);
    }
    1u64 << (e as u64)
}

/// The largest valid tile coordinate at a zoom level, `2^zoom - 1`.
pub fn max_tile_index(zoom: u32) -> (r: u32)
    requires
        zoom <= MAX_ZOOM_LEVEL,
    ensures
        r as nat == pow2(zoom as nat) - 1,
{
    proof {
        lemma2_to64();
        if zoom < 20 {
            vstd::arithmetic::power2::lemma_pow2_strictly_increases(zoom as nat, 20);
        }
        lemma_u32_shl_is_mul(1u32, zoom);
    }
    (1u32 << zoom) - 1
}

/// The same-zoom neighbor of a tile, shifted by (dx, dy): x wraps around
/// the antimeridian, while a y outside the grid yields no neighbor.
pub open spec fn neighbor_of(t: TileId, dx: int, dy: int) -> Option<TileId> {
    let n = pow2(t.zoom as nat) as int;
    if t.y + dy < 0 || t.y + dy >= n {
        None
    } else {
        Some(
            TileId {
                zoom: t.zoom,
                x: ((t.x + dx) % n) as u32,
                y: (t.y + dy) as u32,
            },
        )
    }
}

/// All eight same-zoom neighbors of a tile that exist, in row-major order
/// of their offsets.
pub open spec fn adjacent_seq(t: TileId) -> Seq<TileId> {
    opt_seq(neighbor_of(t, -1, -1)) + opt_seq(neighbor_of(t, -1, 0)) + opt_seq(neighbor_of(t, -1, 1))
        + opt_seq(neighbor_of(t, 0, -1)) + opt_seq(neighbor_of(t, 0, 1)) + opt_seq(
        neighbor_of(t, 1, -1),
    ) + opt_seq(neighbor_of(t, 1, 0)) + opt_seq(neighbor_of(t, 1, 1))
}

pub open spec fn opt_seq(o: Option<TileId>) -> Seq<TileId> {
    match o {
        Some(t) => seq![t],
        None => Seq::empty(),
    }
}

impl TileId {
    /// The neighbor shifted by (dx, dy) at the same zoom, if it exists.
    fn neighbor(&self, dx: i64, dy: i64) -> (r: Option<TileId>)
        requires
            self.wf(),
            -1 <= dx <= 1,
            -1 <= dy <= 1,
        ensures
            r == neighbor_of(*self, dx as int, dy as int),
            r is Some ==> r->Some_0.wf() && r->Some_0.zoom == self.zoom,
    {
        let n: u64 = pow2_u64(self.zoom);
        proof {
            lemma_pow2_pos(self.zoom as nat);
        }
        let yy: i64 = self.y as i64 + dy;
        if yy < 0 || yy as u64 >= n {
            None
        } else {
            let xx: i64 = self.x as i64 + dx;
            let nx: u64 = if xx < 0 {
                proof {
                    let ni = n as int;
                    vstd::arithmetic::div_mod::lemma_mod_add_multiples_vanish(-1, ni);
                    vstd::arithmetic::div_mod::lemma_small_mod((ni - 1) as nat, ni as nat);
                }
                n - 1
            } else if xx as u64 >= n {
                proof {
                    vstd::arithmetic::div_mod::lemma_mod_self_0(n as int);
                }
                0
            } else {
                proof {
                    vstd::arithmetic::div_mod::lemma_small_mod(xx as nat, n as nat);
                }
                xx as u64
            };
            Some(TileId { zoom: self.zoom, x: nx as u32, y: yy as u32 })
        }
    }

    /// Get adjacent tiles (same zoom level).
    pub fn get_adjacent_tiles(&self) -> (adj: Vec<TileId>)
        requires
            self.wf(),
        ensures
            adj@ == adjacent_seq(*self),
            forall|i: int|
                0 <= i < adj@.len() ==> (#[trigger] adj@[i]).wf() && adj@[i].zoom == self.zoom,
    {
        let mut adj: Vec<TileId> = Vec::new();
        if let Some(t) = self.neighbor(-1, -1) {
            adj.push(t);
        }
        if let Some(t) = self.neighbor(-1, 0) {
            adj.push(t);
        }
        if let Some(t) = self.neighbor(-1, 1) {
            adj.push(t);
        }
        if let Some(t) = self.neighbor(0, -1) {
            adj.push(t);
        }
        if let Some(t) = self.neighbor(0, 1) {
            adj.push(t);
        }
        if let Some(t) = self.neighbor(1, -1) {
            adj.push(t);
        }
        if let Some(t) = self.neighbor(1, 0) {
            adj.push(t);
        }
        if let Some(t) = self.neighbor(1, 1) {
            adj.push(t);
        }
        proof {
            assert(adj@ =~= adjacent_seq(*self));
        }
        adj
    }
}

/// Whether both addresses stand for the same ground area: either they are
/// equal, or the one with the coarser zoom contains the other.
pub open spec fn same_area(a: TileId, b: TileId) -> bool {
    covers(a, b) || covers(b, a)
}

/// Check if two tiles refer to the same geographic area: a finer tile is
/// "the same area" as the coarser tile that contains it.
pub fn is_same_area(x1: u32, y1: u32, z1: u32, x2: u32, y2: u32, z2: u32) -> (r: bool)
    requires
        z1 <= MAX_ZOOM_LEVEL,
        z2 <= MAX_ZOOM_LEVEL,
        (TileId { zoom: z1 as u8, x: x1, y: y1 }).wf(),
        (TileId { zoom: z2 as u8, x: x2, y: y2 }).wf(),
    ensures
        r == same_area(
            TileId { zoom: z1 as u8, x: x1, y: y1 },
            TileId { zoom: z2 as u8, x: x2, y: y2 },
        ),
{
    let ghost a = TileId { zoom: z1 as u8, x: x1, y: y1 };
    let ghost b = TileId { zoom: z2 as u8, x: x2, y: y2 };
    if z1 == z2 {
        proof {
            lemma_covers_refl(a);
            lemma_covers_refl(b);
            if covers(a, b) {
                lemma_covers_unique(a, b, b);
            } else if covers(b, a) {
                lemma_covers_unique(b, a, a);
            }
        }
        x1 == x2 && y1 == y2
    } else if z1 < z2 {
        let d: u32 = z2 - z1;
        proof {
            vstd::bits::lemma_u32_shr_is_div(x2, d);
            vstd::bits::lemma_u32_shr_is_div(y2, d);
            lemma_pow2_pos(d as nat);
            assert(!covers(b, a));
        }
        (x2 >> d) == x1 && (y2 >> d) == y1
    } else {
        let d: u32 = z1 - z2;
        proof {
            vstd::bits::lemma_u32_shr_is_div(x1, d);
            vstd::bits::lemma_u32_shr_is_div(y1, d);
            lemma_pow2_pos(d as nat);
            assert(!covers(a, b));
        }
        (x1 >> d) == x2 && (y1 >> d) == y2
    }
}

/// Error type for tile-related operations.
#[derive(Debug, Clone)]
pub enum TileError {
    /// Tile wasn't found (404): definitive, never retried.
    NotFound,
    /// Failed to download the tile: transient, retried a bounded number of times.
    DownloadFailed,
    /// Error loading the tile data (malformed bytes).
    LoadError(String),
    /// Error when caching the tile.
    CacheError,
}

/// Whether a tile belongs to the high-detail focus area or to the coarse
/// background context; the tier decides concurrency budgets and eviction
/// timeouts.
#[derive(Debug, Clone, Copy, PartialEq, Eq, Structural)]
pub enum TileTier {
    Focus,
    Background,
}

/// Represents the state of a tile.
#[derive(Debug, Clone, Copy, PartialEq, Eq, Structural)]
pub enum TileState {
    /// Tile not loaded yet
    NotLoaded,
    /// Tile is queued for loading
    Loading,
    /// Tile load failed
    Failed,
    /// Tile is loaded successfully
    Loaded {
        /// Handle of the displayable entity standing for this tile
        entity: u64,
        /// Time when the tile was loaded (integer milliseconds)
        load_time: u64,
    },
}

/// What `set_loading` does to a state: a load that already succeeded is
/// kept, anything else becomes `Loading`.
pub open spec fn loading_transition(s: TileState) -> TileState {
    if s is Loaded {
        s
    } else {
        TileState::Loading
    }
}

/// What `set_failed` does to a state: a load that already succeeded is
/// kept, anything else becomes `Failed`.
pub open spec fn failed_transition(s: TileState) -> TileState {
    if s is Loaded {
        s
    } else {
        TileState::Failed
    }
}

/// Represents a map tile with metadata.
pub struct Tile {
    /// Tile's unique identifier
    pub id: TileId,
    /// Current state of the tile
    pub state: TileState,
    /// When this tile was last visible (integer milliseconds)
    pub last_visible: u64,
    /// Size of the texture in bytes
    pub texture_size: u32,
    /// Children tiles, either none or all four
    pub children: Vec<Tile>,
}

impl Tile {
    /// Create a new tile.
    pub fn new(id: TileId) -> (t: Tile)
        ensures
            t.id == id,
            t.state == TileState::NotLoaded,
            t.last_visible == 0,
            t.texture_size == 0,
            t.children@.len() == 0,
    {
        Tile { id, state: TileState::NotLoaded, last_visible: 0, texture_size: 0, children: Vec::new() }
    }

    /// Create a tile with its four children already present.
    pub fn with_children(id: TileId) -> (t: Tile)
        requires
            id.wf(),
            id.zoom < MAX_ZOOM_LEVEL,
        ensures
            t.id == id,
            t.state == TileState::NotLoaded,
            t.children@.len() == 4,
            forall|i: int| 0 <= i < 4 ==> (#[trigger] t.children@[i]).id == child_of(id, i),
    {
        let mut tile = Self::new(id);
        tile.create_children();
        tile
    }

    /// Create child tiles; does nothing when they already exist.
    pub fn create_children(&mut self)
        requires
            old(self).id.wf(),
            old(self).id.zoom < MAX_ZOOM_LEVEL,
        ensures
            final(self).id == old(self).id,
            final(self).state == old(self).state,
            final(self).last_visible == old(self).last_visible,
            final(self).texture_size == old(self).texture_size,
            old(self).children@.len() != 0 ==> final(self).children@ == old(self).children@,
            old(self).children@.len() == 0 ==> final(self).children@.len() == 4 && (forall|i: int|
                0 <= i < 4 ==> (#[trigger] final(self).children@[i]).id == child_of(old(self).id, i)),
    {
        if self.children.len() != 0 {
            return ;
        }
        let ids = self.id.children();
        let mut children: Vec<Tile> = Vec::new();
        children.push(Self::new(ids[0]));
        children.push(Self::new(ids[1]));
        children.push(Self::new(ids[2]));
        children.push(Self::new(ids[3]));
        self.children = children;
    }

    /// Mark the tile as loaded; this always takes effect, so a later
    /// successful download overwrites an earlier failure.
    pub fn set_loaded(&mut self, entity: u64, texture_size: u32, current_time: u64)
        ensures
            final(self).state == (TileState::Loaded { entity, load_time: current_time }),
            final(self).texture_size == texture_size,
            final(self).id == old(self).id,
            final(self).last_visible == old(self).last_visible,
            final(self).children@ == old(self).children@,
    {
        self.state = TileState::Loaded { entity, load_time: current_time };
        self.texture_size = texture_size;
    }

    /// Mark the tile as loading, unless it is already loaded.
    pub fn set_loading(&mut self)
        ensures
            final(self).state == loading_transition(old(self).state),
            final(self).id == old(self).id,
            final(self).last_visible == old(self).last_visible,
            final(self).texture_size == old(self).texture_size,
            final(self).children@ == old(self).children@,
    {
        if let TileState::Loaded { .. } = self.state {
            return ;
        }
        self.state = TileState::Loading;
    }

    /// Mark the tile as failed, unless it is already loaded.
    pub fn set_failed(&mut self)
        ensures
            final(self).state == failed_transition(old(self).state),
            final(self).id == old(self).id,
            final(self).last_visible == old(self).last_visible,
            final(self).texture_size == old(self).texture_size,
            final(self).children@ == old(self).children@,
    {
        if let TileState::Loaded { .. } = self.state {
            return ;
        }
        self.state = TileState::Failed;
    }

    /// Update the last visible time.
    pub fn update_visibility(&mut self, current_time: u64)
        ensures
            final(self).last_visible == current_time,
            final(self).id == old(self).id,
            final(self).state == old(self).state,
            final(self).texture_size == old(self).texture_size,
            final(self).children@ == old(self).children@,
    {
        self.last_visible = current_time;
    }
}

/// A failed load never blocks a later, independent success for the same
/// tile: from `Failed`, queueing the tile again puts it in `Loading`, and a
/// completed download then puts it in `Loaded` -- the record moves through
/// `Failed -> Loading -> Loaded` cleanly.
pub proof fn lemma_failed_then_reloaded(entity: u64, load_time: u64)
    ensures
        loading_transition(TileState::Failed) == TileState::Loading,
        loading_transition(TileState::Loading) == TileState::Loading,
        failed_transition(TileState::Loaded { entity, load_time }) == (TileState::Loaded {
            entity,
            load_time,
        }),
{
}

/// Represents the result of loading a tile.
#[derive(Debug)]
pub struct TileLoadResult {
    /// The ID of the tile
    pub tile_id: TileId,
    /// The result of loading the tile
    pub result: Result<(), TileError>,
}

/// Request to load a tile.
#[derive(Debug, Clone)]
pub struct TileLoadRequest {
    /// The ID of the tile to load
    pub tile_id: TileId,
}

/// Calculate the base zoom level for the given camera height (in whole
/// world units): low flights see streets, high flights see continents.
pub open spec fn base_zoom_spec(height: u64) -> u8 {
    if height <= 1 {
        19
    } else if height <= 2 {
        18
    } else if height <= 4 {
        17
    } else if height <= 8 {
        16
    } else if height <= 15 {
        15
    } else if height <= 30 {
        14
    } else if height <= 60 {
        13
    } else if height <= 120 {
        12
    } else if height <= 250 {
        11
    } else if height <= 500 {
        10
    } else if height <= 1000 {
        9
    } else if height <= 2000 {
        8
    } else if height <= 4000 {
        7
    } else if height <= 8000 {
        6
    } else if height <= 16000 {
        5
    } else if height <= 32000 {
        4
    } else if height <= 64000 {
        3
    } else if height <= 128000 {
        2
    } else {
        1
    }
}

/// Calculate appropriate base zoom level from camera height.
pub fn calculate_base_zoom_level(height: u64) -> (zoom: u8)
    ensures
        zoom == base_zoom_spec(height),
        MIN_ZOOM_LEVEL <= zoom <= MAX_ZOOM_LEVEL,
{
    if height <= 1 {
        19
    } else if height <= 2 {
        18
    } else if height <= 4 {
        17
    } else if height <= 8 {
        16
    } else if height <= 15 {
        15
    } else if height <= 30 {
        14
    } else if height <= 60 {
        13
    } else if height <= 120 {
        12
    } else if height <= 250 {
        11
    } else if height <= 500 {
        10
    } else if height <= 1000 {
        9
    } else if height <= 2000 {
        8
    } else if height <= 4000 {
        7
    } else if height <= 8000 {
        6
    } else if height <= 16000 {
        5
    } else if height <= 32000 {
        4
    } else if height <= 64000 {
        3
    } else if height <= 128000 {
        2
    } else {
        1
    }
}

/// The zoom level appropriate for a camera height (in whole world
/// units), on a slightly gentler curve than the base zoom table: it keeps
/// more detail at middle heights.
pub open spec fn zoom_for_height_spec(height: u64) -> u8 {
    if height <= 1 {
        19
    } else if height <= 3 {
        18
    } else if height <= 6 {
        17
    } else if height <= 12 {
        16
    } else if height <= 25 {
        15
    } else if height <= 50 {
        14
    } else if height <= 100 {
        13
    } else if height <= 200 {
        12
    } else if height <= 400 {
        11
    } else if height <= 800 {
        10
    } else if height <= 1600 {
        9
    } else if height <= 3200 {
        8
    } else if height <= 6400 {
        7
    } else if height <= 12800 {
        6
    } else if height <= 25000 {
        5
    } else if height <= 50000 {
        4
    } else if height <= 100000 {
        3
    } else if height <= 200000 {
        2
    } else {
        1
    }
}

/// Determine the appropriate zoom level based on camera height.
pub fn zoom_level_from_camera_height(height: u64) -> (zoom: u8)
    ensures
        zoom == zoom_for_height_spec(height),
        MIN_ZOOM_LEVEL <= zoom <= MAX_ZOOM_LEVEL,
{
    if height <= 1 {
        19
    } else if height <= 3 {
        18
    } else if height <= 6 {
        17
    } else if height <= 12 {
        16
    } else if height <= 25 {
        15
    } else if height <= 50 {
        14
    } else if height <= 100 {
        13
    } else if height <= 200 {
        12
    } else if height <= 400 {
        11
    } else if height <= 800 {
        10
    } else if height <= 1600 {
        9
    } else if height <= 3200 {
        8
    } else if height <= 6400 {
        7
    } else if height <= 12800 {
        6
    } else if height <= 25000 {
        5
    } else if height <= 50000 {
        4
    } else if height <= 100000 {
        3
    } else if height <= 200000 {
        2
    } else {
        1
    }
}

/// What `image::load_from_memory` makes of a byte buffer: `None` when the
/// bytes are not a well-formed image, otherwise the decoded pixel
/// dimensions.  The result is a function of the bytes alone.
pub uninterp spec fn image_decode(bytes: Seq<u8>) -> Option<(u32, u32)>;

/// Whether a byte buffer decodes as a well-formed image.
pub open spec fn image_ok(bytes: Seq<u8>) -> bool {
    image_decode(bytes) is Some
}

/// Calculate image dimensions from bytes.
///
/// Relies on `image::load_from_memory`: it decodes the buffer (guessing the
/// format from the bytes themselves), so success and dimensions depend on
/// the bytes alone.
#[verifier::external_body]
pub fn calculate_image_dimensions(bytes: &[u8]) -> (r: Option<(u32, u32)>)
    ensures
        r == image_decode(bytes@),
{
    match image::load_from_memory(bytes) {
        Ok(img) => Some(image::GenericImageView::dimensions(&img)),
        Err(_) => None,
    }
}

} // verus!
