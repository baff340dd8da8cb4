//! A grid of tiles. Placing and removing tiles is queued and applied on update;
//! applying computes which sprites to spawn, re-index or despawn, keeps every
//! multi-cell tile whole and refreshes the sprites of reacting neighbours.
use vstd::prelude::*;
use crate::geom::{IVec2, UVec2, ivec2, uvec2};
use crate::tiles::{
    TileData, TileSpec, TileNeighborReaction, MultitileType, atlas_index, z_at, main_offsets, overlay_indices,
    cell_offset, frames_drawn, variants_drawn, MAX_TILE_EXTENT, tile_cells, column_cells, atlas_index_fits,
};

verus! {

/// The largest grid side: positions plus tile offsets stay within `i32`.
pub const MAX_GRID_SIZE: u32 = 0x4000_0000;

/// A sprite command for the renderer. Sprites are named by ids the grid hands out.
#[derive(Clone, Copy, PartialEq, Eq, Debug, Structural)]
pub enum SpriteCommand {
    /// Spawn sprite `entity` from `image` with atlas `atlas_layout` at sprite
    /// `index`, at grid cell `pos` and depth level `z` (drawn at depth `z / 128`).
    Spawn { entity: u64, image: u64, atlas_layout: u64, index: usize, pos: IVec2, z: i8 },
    /// Show sprite `index` of atlas `atlas_layout` on sprite `entity`.
    SetIndex { entity: u64, atlas_layout: u64, index: usize },
    /// Despawn sprite `entity`.
    Despawn { entity: u64 },
}

/// A tile part stored in a grid cell: its sprite, its kind, its offset from the
/// tile's origin cell, the overlay sprites it owns (origin parts only), and the
/// variant, neighbour state and frame it shows.
pub struct StoredTile {
    pub entity: u64,
    pub tile_data: TileData,
    pub origin_offset: IVec2,
    pub overlay_tiles: Vec<u64>,
    pub variant: usize,
    pub neighborstate: usize,
    pub frame: usize,
}

/// The plain contents of a stored tile part.
pub struct StoredSpec {
    pub entity: u64,
    pub tile: TileSpec,
    pub origin_offset: IVec2,
    pub overlays: Seq<u64>,
    pub variant: usize,
    pub neighborstate: usize,
    pub frame: usize,
}

impl View for StoredTile {
    type V = StoredSpec;

    open spec fn view(&self) -> StoredSpec {
        StoredSpec {
            entity: self.entity,
            tile: self.tile_data@,
            origin_offset: self.origin_offset,
            overlays: self.overlay_tiles@,
            variant: self.variant,
            neighborstate: self.neighborstate,
            frame: self.frame,
        }
    }
}

impl StoredTile {
    /// Whether this part sits on its tile's origin cell.
    pub fn is_origin(&self) -> (r: bool)
        ensures
            r == (self.origin_offset == zero_vec()),
    {
        self.origin_offset.x == 0 && self.origin_offset.y == 0
    }

    /// The cells around the tile to refresh when it changes, as offsets.
    pub fn iter_around_tile(&self) -> (r: &Vec<IVec2>)
        ensures
            r@ == self.tile_data@.to_update,
    {
        self.tile_data.iter_to_update()
    }
}

/// A queued change: place a tile, or remove what is there.
pub enum TileAction {
    Add { tile_data: TileData },
    Remove,
}

/// The grid's cells, indexed `[x][y]`.
pub type Cells = Seq<Seq<Option<StoredSpec>>>;

pub open spec fn zero_vec() -> IVec2 {
    IVec2 { x: 0, y: 0 }
}

/// Cell (x, y) lies inside a grid of size `size`.
pub open spec fn in_grid(size: UVec2, x: int, y: int) -> bool {
    0 <= x < size.x && 0 <= y < size.y
}

/// Cell (x, y) is outside the grid or empty.
pub open spec fn free(size: UVec2, c: Cells, x: int, y: int) -> bool {
    !in_grid(size, x, y) || c[x][y] is None
}

/// The cells with cell (x, y) set to `v`.
pub open spec fn set_cell(c: Cells, x: int, y: int, v: Option<StoredSpec>) -> Cells {
    c.update(x, c[x].update(y, v))
}

/// A stored part's cell within its tile (y down).
pub open spec fn rel_of(s: StoredSpec) -> (int, int) {
    s.tile.relative_of(s.origin_offset)
}

/// Cell (cx, cy) of a tile is a main-layer cell.
pub open spec fn main_cell(t: TileSpec, cx: int, cy: int) -> bool {
    0 <= cx < t.size.x && 0 <= cy < t.size.y && z_at(t.mask, cx, cy) == 0
}

/// A tile kind whose placement a grid can check: a well-formed one.
pub open spec fn placeable_shape(t: TileSpec) -> bool {
    t.wf()
}

/// A tile kind a grid can hold: one whose placement it can check, with a
/// reaction whose neighbour offsets exist.
pub open spec fn grid_tile(t: TileSpec) -> bool {
    placeable_shape(t) && t.reaction.has_offsets()
}

/// Main cell (cx, cy) of the tile of the part at (x, y) is present in the grid:
/// where it lies inside the grid, a part of the same kind with that cell's offset is stored.
pub open spec fn sibling_present(size: UVec2, c: Cells, x: int, y: int, s: StoredSpec, cx: int, cy: int) -> bool {
    let off = cell_offset(s.tile, (cx, cy));
    let q = (x - s.origin_offset.x + off.x, y - s.origin_offset.y + off.y);
    in_grid(size, q.0, q.1) ==> (c[q.0][q.1] matches Option::Some(s2) && s2.tile == s.tile && s2.origin_offset == off)
}

/// The part stored at (x, y) is sound: a grid tile kind, a drawn variant and
/// frame, a main cell of its tile, and every other main cell of its tile present.
pub open spec fn stored_ok(size: UVec2, c: Cells, x: int, y: int) -> bool {
    c[x][y] matches Option::Some(s) ==> {
        &&& grid_tile(s.tile)
        &&& s.variant < variants_drawn(s.tile)
        &&& s.frame < frames_drawn(s.tile)
        &&& main_cell(s.tile, rel_of(s).0, rel_of(s).1)
        &&& forall|cx: int, cy: int| main_cell(s.tile, cx, cy) ==> #[trigger] sibling_present(size, c, x, y, s, cx, cy)
    }
}

/// The cells of a grid of size `size` are consistent: the right shape, and
/// every stored part sound, so multi-cell tiles are whole.
pub open spec fn cells_wf(size: UVec2, c: Cells) -> bool {
    &&& size.x <= MAX_GRID_SIZE && size.y <= MAX_GRID_SIZE
    &&& c.len() == size.x
    &&& forall|x: int| 0 <= x < c.len() ==> #[trigger] c[x].len() == size.y
    &&& forall|x: int, y: int| in_grid(size, x, y) ==> #[trigger] stored_ok(size, c, x, y)
}

/// A grid of tiles of `size` cells, with the changes queued for the next update
/// and the next free sprite id.
pub struct TileGrid {
    size: UVec2,
    tiles: Vec<Vec<Option<StoredTile>>>,
    to_update: Vec<(UVec2, TileAction)>,
    next_entity: u64,
}

/// The plain contents of a queued change.
pub open spec fn action_view(a: &TileAction) -> Option<TileSpec> {
    match a {
        TileAction::Add { tile_data } => Option::Some(tile_data@),
        TileAction::Remove => Option::None,
    }
}

impl TileGrid {
    /// The grid's size.
    pub closed spec fn size_spec(&self) -> UVec2 {
        self.size
    }

    /// The grid's cells.
    pub closed spec fn cells(&self) -> Cells {
        self.tiles@.map_values(|col: Vec<Option<StoredTile>>| col@.map_values(|o: Option<StoredTile>|
            match o { Option::Some(s) => Option::Some(s@), Option::None => Option::None }))
    }

    /// The queued changes: a position and a tile to place, or none to remove.
    pub closed spec fn pending(&self) -> Seq<(UVec2, Option<TileSpec>)> {
        self.to_update@.map_values(|a: (UVec2, TileAction)| (a.0, action_view(&a.1)))
    }

    /// The next sprite id the grid hands out.
    pub closed spec fn next_entity_spec(&self) -> u64 {
        self.next_entity
    }

    /// The grid is consistent.
    pub closed spec fn wf(&self) -> bool {
        cells_wf(self.size, self.cells())
    }
}


/// An empty grid of any allowed size is consistent.
pub proof fn lemma_empty_cells_wf(size: UVec2, c: Cells)
    requires
        size.x <= MAX_GRID_SIZE,
        size.y <= MAX_GRID_SIZE,
        c.len() == size.x,
        forall|x: int| 0 <= x < c.len() ==> #[trigger] c[x].len() == size.y,
        forall|x: int, y: int| in_grid(size, x, y) ==> #[trigger] c[x][y] is None,
    ensures
        cells_wf(size, c),
{
    assert forall|x: int, y: int| in_grid(size, x, y) implies #[trigger] stored_ok(size, c, x, y) by {
        assert(c[x][y] is None);
    }
}

impl TileGrid {
    /// An empty grid of `size` cells with nothing queued.
    pub fn new(size: UVec2) -> (g: TileGrid)
        requires
            size.x <= MAX_GRID_SIZE,
            size.y <= MAX_GRID_SIZE,
        ensures
            g.wf(),
            g.size_spec() == size,
            g.pending().len() == 0,
            g.next_entity_spec() == 0,
            g.cells().len() == size.x,
            forall|x: int| 0 <= x < size.x ==> #[trigger] g.cells()[x].len() == size.y,
            forall|x: int, y: int| in_grid(size, x, y) ==> #[trigger] g.cells()[x][y] is None,
    {
        let mut tiles: Vec<Vec<Option<StoredTile>>> = Vec::new();
        let mut x: u32 = 0;
        while x < size.x
            invariant
                x <= size.x,
                tiles.len() == x,
                forall|i: int| 0 <= i < x ==> (#[trigger] tiles@[i]).len() == size.y,
                forall|i: int, j: int| 0 <= i < x && 0 <= j < size.y ==> (#[trigger] tiles@[i]@[j]) is None,
            decreases size.x - x,
        {
            let mut col: Vec<Option<StoredTile>> = Vec::new();
            let mut y: u32 = 0;
            while y < size.y
                invariant
                    y <= size.y,
                    col.len() == y,
                    forall|j: int| 0 <= j < y ==> (#[trigger] col@[j]) is None,
                decreases size.y - y,
            {
                col.push(None);
                y = y + 1;
            }
            tiles.push(col);
            x = x + 1;
        }
        let g = TileGrid { size, tiles, to_update: Vec::new(), next_entity: 0 };
        proof {
            assert(g.pending() =~= Seq::<(UVec2, Option<TileSpec>)>::empty());
            assert forall|i: int, j: int| in_grid(size, i, j) implies #[trigger] g.cells()[i][j] is None by {
                assert(g.tiles@[i]@[j] is None);
            }
            lemma_empty_cells_wf(size, g.cells());
        }
        g
    }

    /// The grid's size.
    pub fn size(&self) -> (r: UVec2)
        ensures
            r == self.size_spec(),
    {
        self.size
    }

    /// Whether `pos` lies inside the grid.
    pub fn in_bounds_i(&self, pos: &IVec2) -> (r: bool)
        ensures
            r == in_grid(self.size_spec(), pos.x as int, pos.y as int),
    {
        !(pos.x < 0 || pos.y < 0 || pos.x as u32 >= self.size.x || pos.y as u32 >= self.size.y)
    }

    /// Whether `pos` lies inside the grid.
    pub fn in_bounds(&self, pos: &UVec2) -> (r: bool)
        ensures
            r == in_grid(self.size_spec(), pos.x as int, pos.y as int),
    {
        !(pos.x >= self.size.x || pos.y >= self.size.y)
    }

    fn enqueue(&mut self, pos: &IVec2, action: TileAction)
        requires
            in_grid(old(self).size_spec(), pos.x as int, pos.y as int),
        ensures
            final(self).pending() == old(self).pending().push((UVec2 { x: pos.x as u32, y: pos.y as u32 }, action_view(&action))),
            final(self).cells() == old(self).cells(),
            final(self).size_spec() == old(self).size_spec(),
            final(self).next_entity_spec() == old(self).next_entity_spec(),
            final(self).wf() == old(self).wf(),
    {
        let ghost before = self.to_update@;
        self.to_update.push((uvec2(pos.x as u32, pos.y as u32), action));
        proof {
            assert(self.pending() =~= old(self).pending().push((UVec2 { x: pos.x as u32, y: pos.y as u32 }, action_view(&action))));
        }
    }

    /// Queues placing `tile` at `pos`; a position outside the grid is ignored.
    pub fn add(&mut self, pos: &IVec2, tile: TileData)
        ensures
            final(self).pending() == if in_grid(old(self).size_spec(), pos.x as int, pos.y as int) {
                old(self).pending().push((UVec2 { x: pos.x as u32, y: pos.y as u32 }, Option::Some(tile@)))
            } else {
                old(self).pending()
            },
            final(self).cells() == old(self).cells(),
            final(self).size_spec() == old(self).size_spec(),
            final(self).next_entity_spec() == old(self).next_entity_spec(),
            final(self).wf() == old(self).wf(),
    {
        if !self.in_bounds_i(pos) {
            return;
        }
        self.enqueue(pos, TileAction::Add { tile_data: tile });
    }

    /// Queues placing `tile` at `pos`, or removing what is there when `tile` is
    /// none; a position outside the grid is ignored.
    pub fn set(&mut self, pos: &IVec2, tile: Option<TileData>)
        ensures
            final(self).pending() == if in_grid(old(self).size_spec(), pos.x as int, pos.y as int) {
                old(self).pending().push((UVec2 { x: pos.x as u32, y: pos.y as u32 },
                    match tile { Option::Some(t) => Option::Some(t@), Option::None => Option::None }))
            } else {
                old(self).pending()
            },
            final(self).cells() == old(self).cells(),
            final(self).size_spec() == old(self).size_spec(),
            final(self).next_entity_spec() == old(self).next_entity_spec(),
            final(self).wf() == old(self).wf(),
    {
        if !self.in_bounds_i(pos) {
            return;
        }
        match tile {
            Some(t) => self.enqueue(pos, TileAction::Add { tile_data: t }),
            None => self.enqueue(pos, TileAction::Remove),
        }
    }

    /// Queues removing what is at `pos`; a position outside the grid is ignored.
    pub fn remove(&mut self, pos: &IVec2)
        ensures
            final(self).pending() == if in_grid(old(self).size_spec(), pos.x as int, pos.y as int) {
                old(self).pending().push((UVec2 { x: pos.x as u32, y: pos.y as u32 }, Option::None))
            } else {
                old(self).pending()
            },
            final(self).cells() == old(self).cells(),
            final(self).size_spec() == old(self).size_spec(),
            final(self).next_entity_spec() == old(self).next_entity_spec(),
            final(self).wf() == old(self).wf(),
    {
        if !self.in_bounds_i(pos) {
            return;
        }
        self.enqueue(pos, TileAction::Remove);
    }
}


/// What neighbour offset `o` adds to the state of a `t` tile at (px, py): its
/// weight when the cell there holds the origin part of a `t` tile.
pub open spec fn contribution(size: UVec2, c: Cells, px: int, py: int, t: TileSpec, o: (IVec2, usize)) -> int {
    let qx = px + o.0.x;
    let qy = py + o.0.y;
    if in_grid(size, qx, qy) && c[qx][qy] is Some && c[qx][qy].unwrap().tile == t
        && c[qx][qy].unwrap().origin_offset == zero_vec() {
        o.1 as int
    } else {
        0
    }
}

/// The sum of the contributions of the offsets `offs`.
pub open spec fn state_sum(size: UVec2, c: Cells, px: int, py: int, t: TileSpec, offs: Seq<(IVec2, usize)>) -> int
    decreases offs.len(),
{
    if offs.len() == 0 {
        0
    } else {
        state_sum(size, c, px, py, t, offs.drop_last()) + contribution(size, c, px, py, t, offs.last())
    }
}

/// The neighbour state of a `t` tile at (px, py): the weights of the
/// neighbouring cells (one main layer away) that hold origins of `t` tiles.
pub open spec fn neighbor_state(size: UVec2, c: Cells, px: int, py: int, t: TileSpec) -> int {
    state_sum(size, c, px, py, t, t.neighbor_offsets())
}

/// The sum of the weights of the offsets `offs`.
pub open spec fn weight_sum(offs: Seq<(IVec2, usize)>) -> int
    decreases offs.len(),
{
    if offs.len() == 0 { 0 } else { weight_sum(offs.drop_last()) + offs.last().1 }
}

proof fn lemma_state_sum_bound(size: UVec2, c: Cells, px: int, py: int, t: TileSpec, offs: Seq<(IVec2, usize)>)
    ensures
        0 <= state_sum(size, c, px, py, t, offs) <= weight_sum(offs),
    decreases offs.len(),
{
    if offs.len() > 0 {
        lemma_state_sum_bound(size, c, px, py, t, offs.drop_last());
    }
}

proof fn lemma_neighbor_weights(t: TileSpec, i: int)
    requires
        t.reaction.has_offsets(),
        0 <= i <= t.neighbor_offsets().len(),
    ensures
        weight_sum(t.neighbor_offsets().take(i)) <= 15,
        i < t.neighbor_offsets().len() ==> weight_sum(t.neighbor_offsets().take(i)) + t.neighbor_offsets()[i].1 <= 15,
        t.neighbor_offsets().len() <= 4,
{
    let n = t.neighbor_offsets();
    assert(n.take(0) =~= Seq::<(IVec2, usize)>::empty());
    if t.reaction is Auto4 {
        assert(n.len() == 4);
        assert(n[0].1 == 1 && n[1].1 == 2 && n[2].1 == 4 && n[3].1 == 8);
        assert(n.take(1).drop_last() =~= n.take(0));
        assert(n.take(2).drop_last() =~= n.take(1));
        assert(n.take(3).drop_last() =~= n.take(2));
        assert(n.take(4).drop_last() =~= n.take(3));
        assert(weight_sum(n.take(0)) == 0);
        assert(n.take(1).last() == n[0]);
        assert(weight_sum(n.take(1)) == 1);
        assert(weight_sum(n.take(2)) == 3);
        assert(weight_sum(n.take(3)) == 7);
        assert(weight_sum(n.take(4)) == 15);
    } else {
        assert(n.len() == 1);
        assert(n[0].1 == 0);
        assert(n.take(1).drop_last() =~= n.take(0));
        assert(weight_sum(n.take(0)) == 0);
        assert(n.take(1).last() == n[0]);
        assert(weight_sum(n.take(1)) == 0);
    }
}

proof fn lemma_neighbor_offset_small(t: TileSpec, i: int)
    requires
        t.wf(),
        t.reaction.has_offsets(),
        0 <= i < t.neighbor_offsets().len(),
    ensures
        -(MAX_TILE_EXTENT as int) <= t.neighbor_offsets()[i].0.x <= MAX_TILE_EXTENT,
        -(MAX_TILE_EXTENT as int) <= t.neighbor_offsets()[i].0.y <= MAX_TILE_EXTENT,
{
    let o = t.reaction.offsets()[i];
    assert(-1 <= o.0.x <= 1 && -1 <= o.0.y <= 1);
    let mx = t.main_layer_size().0;
    let my = t.main_layer_size().1;
    assert(1 <= mx <= MAX_TILE_EXTENT && 1 <= my <= MAX_TILE_EXTENT);
    assert(-mx <= o.0.x * mx <= mx) by (nonlinear_arith) requires -1 <= o.0.x <= 1, 1 <= mx;
    assert(-my <= o.0.y * my <= my) by (nonlinear_arith) requires -1 <= o.0.y <= 1, 1 <= my;
}

/// The neighbour state of a grid tile is below 16 (one bit per side).
pub proof fn lemma_neighbor_state_below_16(size: UVec2, c: Cells, px: int, py: int, t: TileSpec)
    requires
        t.reaction.has_offsets(),
    ensures
        0 <= neighbor_state(size, c, px, py, t) < 16,
{
    let n = t.neighbor_offsets();
    lemma_neighbor_weights(t, n.len() as int);
    assert(n.take(n.len() as int) =~= n);
    lemma_state_sum_bound(size, c, px, py, t, n);
}

/// Cell (qx, qy) adds to the state of a `t` tile: it lies in the grid and holds
/// the origin part of a `t` tile.
pub open spec fn counts_for(size: UVec2, c: Cells, qx: int, qy: int, t: TileSpec) -> bool {
    in_grid(size, qx, qy) && c[qx][qy] is Some && c[qx][qy].unwrap().tile == t
        && c[qx][qy].unwrap().origin_offset == zero_vec()
}

proof fn lemma_state_sum_same_but(size: UVec2, c1: Cells, c2: Cells, px: int, py: int, t: TileSpec,
    offs: Seq<(IVec2, usize)>, qx: int, qy: int)
    requires
        forall|x: int, y: int| in_grid(size, x, y) && (x != qx || y != qy) ==> #[trigger] c1[x][y] == c2[x][y],
        !counts_for(size, c1, qx, qy, t),
        !counts_for(size, c2, qx, qy, t),
    ensures
        state_sum(size, c1, px, py, t, offs) == state_sum(size, c2, px, py, t, offs),
    decreases offs.len(),
{
    if offs.len() > 0 {
        lemma_state_sum_same_but(size, c1, c2, px, py, t, offs.drop_last(), qx, qy);
        let o = offs.last();
        let x = px + o.0.x;
        let y = py + o.0.y;
        if in_grid(size, x, y) && (x != qx || y != qy) {
            assert(c1[x][y] == c2[x][y]);
        }
    }
}

/// The cells of `c` with cell (qx, qy) set to `v` agree with `c` everywhere else.
proof fn lemma_set_cell_elsewhere(size: UVec2, c: Cells, qx: int, qy: int, v: Option<StoredSpec>)
    requires
        cells_wf(size, c),
        in_grid(size, qx, qy),
    ensures
        forall|x: int, y: int| in_grid(size, x, y) && (x != qx || y != qy)
            ==> #[trigger] set_cell(c, qx, qy, v)[x][y] == c[x][y],
        set_cell(c, qx, qy, v)[qx][qy] == v,
{
    assert(c[qx].len() == size.y);
    assert forall|x: int, y: int| in_grid(size, x, y) && (x != qx || y != qy)
        implies #[trigger] set_cell(c, qx, qy, v)[x][y] == c[x][y] by {
        assert(c[x].len() == size.y);
    }
}

/// Only origin parts of tiles of the same kind add to a tile's neighbour state:
/// a neighbouring cell holding a part of another kind, or a part that is not
/// its tile's origin, gives the same state as that cell left empty.
pub proof fn lemma_other_parts_do_not_count(size: UVec2, c: Cells, px: int, py: int, t: TileSpec, qx: int, qy: int)
    requires
        cells_wf(size, c),
        in_grid(size, qx, qy),
        c[qx][qy] is Some,
        c[qx][qy].unwrap().tile != t || c[qx][qy].unwrap().origin_offset != zero_vec(),
    ensures
        neighbor_state(size, c, px, py, t) == neighbor_state(size, set_cell(c, qx, qy, Option::None), px, py, t),
{
    lemma_set_cell_elsewhere(size, c, qx, qy, Option::None);
    lemma_state_sum_same_but(size, c, set_cell(c, qx, qy, Option::None), px, py, t, t.neighbor_offsets(), qx, qy);
}

/// The neighbour offsets of a grid tile kind lead to different cells.
proof fn lemma_neighbor_offsets_distinct(t: TileSpec, i: int, j: int)
    requires
        t.wf(),
        t.reaction.has_offsets(),
        0 <= i < t.neighbor_offsets().len(),
        0 <= j < t.neighbor_offsets().len(),
        i != j,
    ensures
        t.neighbor_offsets()[i].0 != t.neighbor_offsets()[j].0,
{
    let n = t.neighbor_offsets();
    let mx = t.main_layer_size().0;
    let my = t.main_layer_size().1;
    assert(1 <= mx <= MAX_TILE_EXTENT && 1 <= my <= MAX_TILE_EXTENT);
    if t.reaction is Auto4 {
        assert(0 * mx == 0 && 1 * mx == mx && -1 * mx == -mx) by (nonlinear_arith);
        assert(0 * my == 0 && 1 * my == my && -1 * my == -my) by (nonlinear_arith);
        assert(n[0].0 == IVec2 { x: 0, y: my as i32 });
        assert(n[1].0 == IVec2 { x: mx as i32, y: 0 });
        assert(n[2].0 == IVec2 { x: 0, y: (-my) as i32 });
        assert(n[3].0 == IVec2 { x: (-mx) as i32, y: 0 });
    }
}

proof fn lemma_state_sum_gain(size: UVec2, c: Cells, c2: Cells, px: int, py: int, t: TileSpec, i: int, k: int)
    requires
        t.wf(),
        t.reaction.has_offsets(),
        0 <= i < t.neighbor_offsets().len(),
        0 <= k <= t.neighbor_offsets().len(),
        forall|x: int, y: int| in_grid(size, x, y)
            && (x != px + t.neighbor_offsets()[i].0.x || y != py + t.neighbor_offsets()[i].0.y)
            ==> #[trigger] c2[x][y] == c[x][y],
        !counts_for(size, c, px + t.neighbor_offsets()[i].0.x, py + t.neighbor_offsets()[i].0.y, t),
        counts_for(size, c2, px + t.neighbor_offsets()[i].0.x, py + t.neighbor_offsets()[i].0.y, t),
    ensures
        state_sum(size, c2, px, py, t, t.neighbor_offsets().take(k))
            == state_sum(size, c, px, py, t, t.neighbor_offsets().take(k)) + if k > i { t.neighbor_offsets()[i].1 as int } else { 0 },
    decreases k,
{
    let n = t.neighbor_offsets();
    if k > 0 {
        lemma_state_sum_gain(size, c, c2, px, py, t, i, k - 1);
        assert(n.take(k).drop_last() =~= n.take(k - 1));
        let o = n[k - 1];
        assert(n.take(k).last() == o);
        let x = px + o.0.x;
        let y = py + o.0.y;
        if k - 1 != i {
            lemma_neighbor_offsets_distinct(t, i, k - 1);
            if in_grid(size, x, y) && (x != px + n[i].0.x || y != py + n[i].0.y) {
                assert(c2[x][y] == c[x][y]);
            }
        }
    } else {
        assert(n.take(0) =~= Seq::<(IVec2, usize)>::empty());
    }
}

/// An origin part of a tile of the same kind adds its side's weight: putting
/// one on the empty cell a neighbour offset leads to raises the state by that
/// offset's weight.
pub proof fn lemma_same_kind_origin_counts(size: UVec2, c: Cells, px: int, py: int, t: TileSpec, i: int, s: StoredSpec)
    requires
        cells_wf(size, c),
        t.wf(),
        t.reaction.has_offsets(),
        0 <= i < t.neighbor_offsets().len(),
        in_grid(size, px + t.neighbor_offsets()[i].0.x, py + t.neighbor_offsets()[i].0.y),
        c[px + t.neighbor_offsets()[i].0.x][py + t.neighbor_offsets()[i].0.y] is None,
        s.tile == t,
        s.origin_offset == zero_vec(),
    ensures
        neighbor_state(size, set_cell(c, px + t.neighbor_offsets()[i].0.x, py + t.neighbor_offsets()[i].0.y,
            Option::Some(s)), px, py, t) == neighbor_state(size, c, px, py, t) + t.neighbor_offsets()[i].1,
{
    let n = t.neighbor_offsets();
    let qx = px + n[i].0.x;
    let qy = py + n[i].0.y;
    let c2 = set_cell(c, qx, qy, Option::Some(s));
    lemma_set_cell_elsewhere(size, c, qx, qy, Option::Some(s));
    lemma_state_sum_gain(size, c, c2, px, py, t, i, n.len() as int);
    assert(n.take(n.len() as int) =~= n);
}

/// Where the placement check anchors a tile placed at `pos`: the origin moved
/// back by the origin offset (y up).
pub open spec fn place_anchor(pos: UVec2, t: TileSpec) -> (int, int) {
    (pos.x - t.origin_offset.x, pos.y + t.origin_offset.y)
}

/// Both corners of the tile's main layer rectangle lie in the grid.
pub open spec fn rect_ok(size: UVec2, a: (int, int), t: TileSpec) -> bool {
    let r = t.main_layer_rect;
    in_grid(size, a.0 + r.0.x, a.1 - r.0.y) && in_grid(size, a.0 + r.1.x, a.1 - r.1.y)
}

/// Whether a tile may be placed at `pos`: a single tile needs its cell inside
/// the grid and empty; a multi-cell tile needs its main layer rectangle inside
/// the grid and every main-layer cell of its mask outside the grid or empty.
pub open spec fn can_be_placed_spec(size: UVec2, c: Cells, pos: UVec2, t: TileSpec) -> bool {
    let a = place_anchor(pos, t);
    match t.mask {
        Option::None => in_grid(size, a.0, a.1) && c[a.0][a.1] is None,
        Option::Some(m) => {
            &&& rect_ok(size, a, t)
            &&& forall|x: int, y: int| 0 <= y < m.len() && 0 <= x < m[y].len() && m[y][x] == 0
                ==> #[trigger] free(size, c, a.0 + x, a.1 - y)
        },
    }
}

/// Some main-layer cell of the tile, placed with its origin at `pos`, lies in the
/// grid on a taken cell. A mask row shorter than the tile's width leaves cells
/// that the placement check does not look at, though they are main-layer cells
/// (depth 0) that placing fills.
pub open spec fn hidden_cell_taken(size: UVec2, c: Cells, pos: UVec2, t: TileSpec) -> bool {
    exists|cx: int, cy: int| #[trigger] main_cell(t, cx, cy)
        && !free(size, c, place_anchor(pos, t).0 + cx, place_anchor(pos, t).1 - cy)
}

/// Placing the tile would store parts over parts of other tiles: the placement
/// check passes and the origin cell is empty, yet a main-layer cell that the
/// check skipped is taken.
pub open spec fn placement_overwrites(size: UVec2, c: Cells, pos: UVec2, t: TileSpec) -> bool {
    &&& can_be_placed_spec(size, c, pos, t)
    &&& c[pos.x as int][pos.y as int] is None
    &&& hidden_cell_taken(size, c, pos, t)
}

/// The placement check would wrap a coordinate below 0 (the check panics there):
/// a multi-cell tile whose rectangle fits but whose anchor lies left of the grid.
pub open spec fn placement_overflows(size: UVec2, pos: UVec2, t: TileSpec) -> bool {
    t.mask is Some && rect_ok(size, place_anchor(pos, t), t) && place_anchor(pos, t).0 < 0
}

impl TileGrid {
    /// The cell at (x, y) as stored.
    proof fn lemma_cell_view(&self, x: int, y: int)
        requires
            0 <= x < self.cells().len(),
            0 <= y < self.cells()[x].len(),
        ensures
            self.cells()[x][y] == match self.tiles@[x]@[y] {
                Option::Some(s) => Option::Some(s@),
                Option::None => Option::None,
            },
            self.cells()[x].len() == self.tiles@[x]@.len(),
            self.cells().len() == self.tiles@.len(),
    {
    }

    /// The neighbour state of a `tile` tile at `pos`.
    fn get_state(&self, pos: &UVec2, tile: &TileData) -> (r: usize)
        requires
            self.wf(),
            in_grid(self.size_spec(), pos.x as int, pos.y as int),
            grid_tile(tile@),
        ensures
            r == neighbor_state(self.size_spec(), self.cells(), pos.x as int, pos.y as int, tile@),
            r < 16,
    {
        let offs = tile.iter_neighbors_offsets();
        let ghost t = tile@;
        let ghost n = t.neighbor_offsets();
        let mut state: usize = 0;
        let mut i: usize = 0;
        let px = pos.x as i32;
        let py = pos.y as i32;
        while i < offs.len()
            invariant
                self.wf(),
                in_grid(self.size_spec(), pos.x as int, pos.y as int),
                grid_tile(t), t == tile@, n == t.neighbor_offsets(), offs@ == n,
                px == pos.x, py == pos.y,
                0 <= i <= offs.len(),
                state == state_sum(self.size_spec(), self.cells(), pos.x as int, pos.y as int, t, n.take(i as int)),
            decreases offs.len() - i,
        {
            proof {
                lemma_neighbor_weights(t, i as int);
                lemma_state_sum_bound(self.size_spec(), self.cells(), pos.x as int, pos.y as int, t, n.take(i as int));
                assert(n.take(i + 1).drop_last() =~= n.take(i as int));
                assert(n.take(i + 1).last() == n[i as int]);
                // the neighbour offsets are a main layer (at most the mask's range) away
                lemma_neighbor_offset_small(t, i as int);
            }
            let (o, w) = offs[i];
            let q = ivec2(px + o.x, py + o.y);
            if self.in_bounds_i(&q) {
                let qx = q.x as usize;
                let qy = q.y as usize;
                proof { self.lemma_cell_view(qx as int, qy as int); }
                match &self.tiles[qx][qy] {
                    Some(stored) => {
                        if stored.tile_data.same_as(tile) && stored.origin_offset == ivec2(0, 0) {
                            state = state + w;
                        }
                    },
                    None => {},
                }
            }
            i = i + 1;
        }
        proof {
            assert(n.take(offs.len() as int) =~= n);
            lemma_neighbor_state_below_16(self.size_spec(), self.cells(), pos.x as int, pos.y as int, t);
        }
        state
    }
}


impl TileGrid {
    /// Whether cell (x, y) is outside the grid or empty.
    fn is_free(&self, x: i32, y: i32) -> (r: bool)
        requires
            self.wf(),
        ensures
            r == free(self.size_spec(), self.cells(), x as int, y as int),
    {
        if !self.in_bounds_i(&ivec2(x, y)) {
            return true;
        }
        proof { self.lemma_cell_view(x as int, y as int); }
        self.tiles[x as usize][y as usize].is_none()
    }

    /// Whether every main-layer cell of `tile`, placed with its origin at
    /// `origin`, lies outside the grid or on an empty cell.
    fn main_cells_free(&self, origin: &UVec2, tile: &TileData) -> (r: bool)
        requires
            self.wf(),
            in_grid(self.size_spec(), origin.x as int, origin.y as int),
            placeable_shape(tile@),
        ensures
            r == !hidden_cell_taken(self.size_spec(), self.cells(), *origin, tile@),
    {
        let ghost t = tile@;
        let ax = origin.x as i32 - tile.origin_offset.x as i32;
        let ay = origin.y as i32 + tile.origin_offset.y as i32;
        let ghost a = place_anchor(*origin, t);
        assert(ax == a.0 && ay == a.1);
        let sx = tile.size.x;
        let sy = tile.size.y;
        let mut cx: u32 = 0;
        while cx < sx
            invariant
                self.wf(),
                t == tile@, placeable_shape(t), sx == t.size.x, sy == t.size.y,
                ax == a.0, ay == a.1, a == place_anchor(*origin, t),
                -(MAX_TILE_EXTENT as int) <= ax <= MAX_GRID_SIZE, 0 <= ay <= MAX_GRID_SIZE + MAX_TILE_EXTENT,
                cx <= sx,
                forall|i: int, j: int| 0 <= i < cx && #[trigger] main_cell(t, i, j) ==> free(self.size_spec(), self.cells(), a.0 + i, a.1 - j),
            decreases sx - cx,
        {
            let mut cy: u32 = 0;
            while cy < sy
                invariant
                    self.wf(),
                    t == tile@, placeable_shape(t), sx == t.size.x, sy == t.size.y,
                    ax == a.0, ay == a.1, a == place_anchor(*origin, t),
                    -(MAX_TILE_EXTENT as int) <= ax <= MAX_GRID_SIZE, 0 <= ay <= MAX_GRID_SIZE + MAX_TILE_EXTENT,
                    cx < sx, cy <= sy,
                    forall|i: int, j: int| (0 <= i < cx || (i == cx && j < cy)) && #[trigger] main_cell(t, i, j)
                        ==> free(self.size_spec(), self.cells(), a.0 + i, a.1 - j),
                decreases sy - cy,
            {
                if tile.multitile.get_z(uvec2(cx, cy)) == 0 {
                    assert(main_cell(t, cx as int, cy as int));
                    if !self.is_free(ax + cx as i32, ay - cy as i32) {
                        return false;
                    }
                }
                cy = cy + 1;
            }
            cx = cx + 1;
        }
        true
    }

    /// Whether `tile` may be placed at `origin` (see `can_be_placed_spec`).
    fn can_be_placed(&self, origin: &UVec2, tile: &TileData) -> (r: bool)
        requires
            self.wf(),
            in_grid(self.size_spec(), origin.x as int, origin.y as int),
            placeable_shape(tile@),
            !placement_overflows(self.size_spec(), *origin, tile@),
        ensures
            r == can_be_placed_spec(self.size_spec(), self.cells(), *origin, tile@),
    {
        let ghost t = tile@;
        let ax = origin.x as i32 - tile.origin_offset.x as i32;
        let ay = origin.y as i32 + tile.origin_offset.y as i32;
        match &tile.multitile {
            MultitileType::Single => {
                if !self.in_bounds_i(&ivec2(ax, ay)) {
                    return false;
                }
                self.is_free(ax, ay)
            },
            MultitileType::Multitile { z_mask } => {
                let ghost m = crate::tiles::mask_view(z_mask);
                assert(t.mask == Option::Some(m));
                let rect = tile.get_main_layer_rect();
                let c0 = ivec2(ax + rect.0.x as i32, ay - rect.0.y as i32);
                let c1 = ivec2(ax + rect.1.x as i32, ay - rect.1.y as i32);
                if !self.in_bounds_i(&c0) || !self.in_bounds_i(&c1) {
                    return false;
                }
                assert(ax >= 0);
                let mut y: usize = 0;
                while y < z_mask.len()
                    invariant
                        self.wf(),
                        t == tile@, placeable_shape(t), t.mask == Option::Some(m), m == crate::tiles::mask_view(z_mask),
                        ax == place_anchor(*origin, t).0, ay == place_anchor(*origin, t).1,
                        0 <= ax <= MAX_GRID_SIZE, 0 <= ay <= MAX_GRID_SIZE + MAX_TILE_EXTENT,
                        y <= z_mask.len(),
                        forall|a: int, b: int| 0 <= b < y && 0 <= a < m[b].len() && m[b][a] == 0
                            ==> #[trigger] free(self.size_spec(), self.cells(), ax + a, ay - b),
                    decreases z_mask.len() - y,
                {
                    let row = &z_mask[y];
                    assert(row@ == m[y as int]);
                    assert(row.len() <= MAX_TILE_EXTENT);
                    let mut x: usize = 0;
                    while x < row.len()
                        invariant
                            self.wf(),
                            t == tile@, placeable_shape(t), t.mask == Option::Some(m), m == crate::tiles::mask_view(z_mask),
                            ax == place_anchor(*origin, t).0, ay == place_anchor(*origin, t).1,
                            0 <= ax <= MAX_GRID_SIZE, 0 <= ay <= MAX_GRID_SIZE + MAX_TILE_EXTENT,
                            y < z_mask.len(), y < MAX_TILE_EXTENT,
                            row@ == m[y as int], row.len() <= MAX_TILE_EXTENT,
                            x <= row.len(),
                            forall|a: int, b: int| (0 <= b < y || (b == y && a < x)) && 0 <= a < m[b].len() && m[b][a] == 0
                                ==> #[trigger] free(self.size_spec(), self.cells(), ax + a, ay - b),
                        decreases row.len() - x,
                    {
                        if row[x] == 0 {
                            if !self.is_free(ax + x as i32, ay - y as i32) {
                                return false;
                            }
                        }
                        x = x + 1;
                    }
                    y = y + 1;
                }
                true
            },
        }
    }
}


/// The position of cell (cx, cy) among a tile's cells (column after column).
pub open spec fn cell_index(t: TileSpec, cx: int, cy: int) -> int {
    cx * t.size.y + cy
}

/// The tile cell that grid cell (x, y) gets when a tile is placed at `pos`.
pub open spec fn part_cell(pos: UVec2, t: TileSpec, x: int, y: int) -> (int, int) {
    (x - pos.x + t.origin_offset.x, pos.y + t.origin_offset.y - y)
}

/// Placing a tile at `pos` stores a part at grid cell (x, y): it is one of the
/// tile's main-layer cells.
pub open spec fn is_part(pos: UVec2, t: TileSpec, x: int, y: int) -> bool {
    main_cell(t, part_cell(pos, t, x, y).0, part_cell(pos, t, x, y).1)
}

/// The sprite ids of the overlay cells (depth not 0) among `cells`, where the
/// `j`-th cell gets id `next + j`.
pub open spec fn overlay_ids(t: TileSpec, cells: Seq<(int, int)>, next: int) -> Seq<u64>
    decreases cells.len(),
{
    if cells.len() == 0 {
        Seq::empty()
    } else {
        let rest = overlay_ids(t, cells.drop_last(), next);
        let c = cells.last();
        if z_at(t.mask, c.0, c.1) != 0 { rest.push((next + cells.len() - 1) as u64) } else { rest }
    }
}

/// The part stored at grid cell (x, y) when a tile is placed at `pos` with
/// neighbour state `state`, variant `variant` and first sprite id `next`: the
/// origin part owns all the overlay sprites.
pub open spec fn new_part(pos: UVec2, t: TileSpec, x: int, y: int, state: int, variant: int, next: int) -> StoredSpec {
    let pc = part_cell(pos, t, x, y);
    let off = IVec2 { x: (x - pos.x) as i32, y: (y - pos.y) as i32 };
    StoredSpec {
        entity: (next + cell_index(t, pc.0, pc.1)) as u64,
        tile: t,
        origin_offset: off,
        overlays: if off == zero_vec() { overlay_ids(t, t.cells(), next) } else { Seq::empty() },
        variant: variant as usize,
        neighborstate: state as usize,
        frame: 0,
    }
}

/// The cells after storing the parts whose cell index is below `bound`.
pub open spec fn placed_upto(size: UVec2, c: Cells, pos: UVec2, t: TileSpec, state: int, variant: int, next: int, bound: int) -> Cells {
    Seq::new(c.len(), |x: int| Seq::new(c[x].len(), |y: int|
        if in_grid(size, x, y) && is_part(pos, t, x, y)
            && cell_index(t, part_cell(pos, t, x, y).0, part_cell(pos, t, x, y).1) < bound {
            Option::Some(new_part(pos, t, x, y, state, variant, next))
        } else {
            c[x][y]
        }))
}

/// The cells after placing a tile at `pos`: every main-layer cell inside the grid holds its part.
pub open spec fn placed_cells(size: UVec2, c: Cells, pos: UVec2, t: TileSpec, state: int, variant: int, next: int) -> Cells {
    placed_upto(size, c, pos, t, state, variant, next, t.size.x * t.size.y)
}

/// The spawn command for the `k`-th cell of a tile placed at `pos`.
pub open spec fn spawn_command(pos: UVec2, t: TileSpec, state: int, variant: int, next: int, k: int) -> SpriteCommand {
    let c = t.cells()[k];
    SpriteCommand::Spawn {
        entity: (next + k) as u64,
        image: t.image,
        atlas_layout: t.atlas_layout,
        index: atlas_index(t, c.0, c.1, state, variant, 0) as usize,
        pos: IVec2 { x: (pos.x + cell_offset(t, c).x) as i32, y: (pos.y + cell_offset(t, c).y) as i32 },
        z: z_at(t.mask, c.0, c.1),
    }
}

/// The spawn commands for every cell of a tile placed at `pos`, in cell order.
pub open spec fn spawn_commands(pos: UVec2, t: TileSpec, state: int, variant: int, next: int) -> Seq<SpriteCommand> {
    Seq::new(t.cells().len(), |k: int| spawn_command(pos, t, state, variant, next, k))
}

/// The cells of a tile, indexed.
pub proof fn lemma_tile_cells_index(w: nat, h: nat)
    ensures
        tile_cells(w, h).len() == w * h,
        forall|cx: int, cy: int| 0 <= cx < w && 0 <= cy < h ==> #[trigger] tile_cells(w, h)[cx * h + cy] == (cx, cy),
    decreases w,
{
    if w > 0 {
        lemma_tile_cells_index((w - 1) as nat, h);
        let prev = tile_cells((w - 1) as nat, h);
        assert((w - 1) * h + h == w * h) by (nonlinear_arith);
        assert forall|cx: int, cy: int| 0 <= cx < w && 0 <= cy < h implies #[trigger] tile_cells(w, h)[cx * h + cy] == (cx, cy) by {
            if cx < w - 1 {
                assert(cx * h + cy < (w - 1) * h) by (nonlinear_arith) requires cx < w - 1, 0 <= cy < h, 0 <= cx;
                assert(prev[cx * h + cy] == (cx, cy));
            } else {
                assert(cx * h == (w - 1) * h);
            }
        }
    } else {
        assert(w * h == 0) by (nonlinear_arith) requires w == 0;
    }
}

/// Distinct cells of a tile have distinct indices.
pub proof fn lemma_cell_index_injective(h: int, a: int, b: int, c: int, d: int)
    requires
        0 <= b < h,
        0 <= d < h,
        0 <= a,
        0 <= c,
        a * h + b == c * h + d,
    ensures
        a == c && b == d,
{
    if a < c {
        assert(a * h + b < c * h) by (nonlinear_arith) requires a < c, 0 <= b < h;
    } else if a > c {
        assert(c * h + d < a * h) by (nonlinear_arith) requires c < a, 0 <= d < h;
    }
}


/// The view of an optional stored part.
pub open spec fn opt_view(o: Option<StoredTile>) -> Option<StoredSpec> {
    match o {
        Option::Some(s) => Option::Some(s@),
        Option::None => Option::None,
    }
}

proof fn lemma_placed_step(size: UVec2, c: Cells, pos: UVec2, t: TileSpec, st: int, v: int, next: int, k: int, x: int, y: int)
    requires
        k == x * t.size.y + y,
        0 <= x < t.size.x,
        0 <= y < t.size.y,
        c.len() == size.x,
        forall|i: int| 0 <= i < c.len() ==> #[trigger] c[i].len() == size.y,
    ensures
        ({
            let qx = pos.x + x - t.origin_offset.x;
            let qy = pos.y - y + t.origin_offset.y;
            placed_upto(size, c, pos, t, st, v, next, k + 1) == if main_cell(t, x, y) && in_grid(size, qx, qy) {
                set_cell(placed_upto(size, c, pos, t, st, v, next, k), qx, qy,
                    Option::Some(new_part(pos, t, qx, qy, st, v, next)))
            } else {
                placed_upto(size, c, pos, t, st, v, next, k)
            }
        }),
{
    let qx = pos.x + x - t.origin_offset.x;
    let qy = pos.y - y + t.origin_offset.y;
    let p0 = placed_upto(size, c, pos, t, st, v, next, k);
    let p1 = placed_upto(size, c, pos, t, st, v, next, k + 1);
    let goal = if main_cell(t, x, y) && in_grid(size, qx, qy) {
        set_cell(p0, qx, qy, Option::Some(new_part(pos, t, qx, qy, st, v, next)))
    } else {
        p0
    };
    assert(p1.len() == goal.len());
    assert forall|a: int| 0 <= a < p1.len() implies #[trigger] p1[a] =~= goal[a] by {
        assert forall|b: int| 0 <= b < p1[a].len() implies p1[a][b] == goal[a][b] by {
            let pc = part_cell(pos, t, a, b);
            if in_grid(size, a, b) && is_part(pos, t, a, b) {
                let ci = cell_index(t, pc.0, pc.1);
                if ci == k {
                    lemma_cell_index_injective(t.size.y as int, pc.0, pc.1, x, y);
                    assert(a == qx && b == qy);
                } else if a == qx && b == qy {
                    assert(pc == (x, y));
                }
            } else if a == qx && b == qy {
                assert(pc == (x, y));
            }
        }
    }
    assert(p1 =~= goal);
}

impl TileGrid {
    /// Stores `v` at cell (x, y).
    fn store(&mut self, x: usize, y: usize, v: Option<StoredTile>)
        requires
            x < old(self).cells().len(),
            y < old(self).cells()[x as int].len(),
        ensures
            final(self).cells() == set_cell(old(self).cells(), x as int, y as int, opt_view(v)),
            final(self).size_spec() == old(self).size_spec(),
            final(self).pending() == old(self).pending(),
            final(self).next_entity_spec() == old(self).next_entity_spec(),
    {
        let ghost v2 = opt_view(v);
        self.tiles[x][y] = v;
        proof {
            assert forall|i: int| 0 <= i < self.cells().len() implies
                #[trigger] self.cells()[i] =~= set_cell(old(self).cells(), x as int, y as int, v2)[i] by {
                if i == x {
                    assert forall|j: int| 0 <= j < self.cells()[i].len() implies
                        self.cells()[i][j] == set_cell(old(self).cells(), x as int, y as int, v2)[i][j] by {
                        if j == y {
                            assert(self.tiles@[i]@[j] == v);
                        }
                    }
                }
            }
            assert(self.cells() =~= set_cell(old(self).cells(), x as int, y as int, v2));
        }
    }
}


/// Appending the next cell of a column to the cells seen so far.
proof fn lemma_prefix_step(w: nat, h: nat, x: int, y: nat)
    requires
        x == w,
        y < h,
    ensures
        (tile_cells(w, h) + column_cells(x, y)).push((x, y as int)) =~= tile_cells(w, h) + column_cells(x, (y + 1) as nat),
        (tile_cells(w, h) + column_cells(x, y)).len() == w * h + y,
{
    lemma_tile_cells_index(w, h);
}

fn copy_ids(a: &Vec<u64>) -> (r: Vec<u64>)
    ensures
        r@ == a@,
{
    let mut r: Vec<u64> = Vec::new();
    let mut i: usize = 0;
    while i < a.len()
        invariant
            i <= a.len(),
            r@ == a@.take(i as int),
        decreases a.len() - i,
    {
        r.push(a[i]);
        i = i + 1;
        assert(r@ =~= a@.take(i as int));
    }
    assert(a@.take(a.len() as int) =~= a@);
    r
}

impl TileGrid {
    /// Spawns a sprite for every cell of `tile` placed at `pos` and stores its
    /// main-layer parts that lie inside the grid.
    fn spawn_and_store(&mut self, pos: &UVec2, tile: &TileData, state: usize, variant: usize) -> (cmds: Vec<SpriteCommand>)
        requires
            old(self).wf(),
            in_grid(old(self).size_spec(), pos.x as int, pos.y as int),
            grid_tile(tile@),
            state < 16,
            variant < variants_drawn(tile@),
            old(self).next_entity_spec() + tile@.size.x * tile@.size.y <= u64::MAX,
        ensures
            final(self).cells() == placed_cells(old(self).size_spec(), old(self).cells(), *pos, tile@, state as int,
                variant as int, old(self).next_entity_spec() as int),
            cmds@ == spawn_commands(*pos, tile@, state as int, variant as int, old(self).next_entity_spec() as int),
            final(self).next_entity_spec() == old(self).next_entity_spec() + tile@.size.x * tile@.size.y,
            final(self).size_spec() == old(self).size_spec(),
            final(self).pending() == old(self).pending(),
    {
        let ghost t = tile@;
        let ghost c0 = self.cells();
        let ghost size = self.size;
        let next = self.next_entity;
        let sx = tile.size.x;
        let sy = tile.size.y;
        let ox = tile.origin_offset.x as i32;
        let oy = tile.origin_offset.y as i32;
        let px = pos.x as i32;
        let py = pos.y as i32;
        proof {
            crate::tiles::lemma_wf_indices_fit(t, state as int, variant as int, 0);
            lemma_tile_cells_index(sx as nat, sy as nat);
        }
        let mut cmds: Vec<SpriteCommand> = Vec::new();
        let mut overlays: Vec<u64> = Vec::new();
        let mut k: u64 = 0;
        let mut x: u32 = 0;
        while x < sx
            invariant
                t == tile@, grid_tile(t), t.indices_fit(state as int, variant as int, 0), t.coords_fit(),
                sx == t.size.x, sy == t.size.y, ox == t.origin_offset.x, oy == t.origin_offset.y,
                px == pos.x, py == pos.y, pos.x < MAX_GRID_SIZE, pos.y < MAX_GRID_SIZE,
                next + sx * sy <= u64::MAX,
                x <= sx,
                k == x * sy,
                tile_cells(sx as nat, sy as nat).len() == sx * sy,
                forall|cx: int, cy: int| 0 <= cx < sx && 0 <= cy < sy ==> #[trigger] tile_cells(sx as nat, sy as nat)[cx * sy + cy] == (cx, cy),
                cmds@ == spawn_commands(*pos, t, state as int, variant as int, next as int).take(k as int),
                overlays@ == overlay_ids(t, tile_cells(x as nat, sy as nat), next as int),
            decreases sx - x,
        {
            let mut y: u32 = 0;
            assert(tile_cells(x as nat, sy as nat) + column_cells(x as int, 0) =~= tile_cells(x as nat, sy as nat));
            while y < sy
                invariant
                    t == tile@, grid_tile(t), t.indices_fit(state as int, variant as int, 0), t.coords_fit(),
                    sx == t.size.x, sy == t.size.y, ox == t.origin_offset.x, oy == t.origin_offset.y,
                    px == pos.x, py == pos.y, pos.x < MAX_GRID_SIZE, pos.y < MAX_GRID_SIZE,
                    next + sx * sy <= u64::MAX,
                    x < sx,
                    y <= sy,
                    k == x * sy + y,
                    tile_cells(sx as nat, sy as nat).len() == sx * sy,
                    forall|cx: int, cy: int| 0 <= cx < sx && 0 <= cy < sy ==> #[trigger] tile_cells(sx as nat, sy as nat)[cx * sy + cy] == (cx, cy),
                    cmds@ == spawn_commands(*pos, t, state as int, variant as int, next as int).take(k as int),
                    overlays@ == overlay_ids(t, tile_cells(x as nat, sy as nat) + column_cells(x as int, y as nat), next as int),
                decreases sy - y,
            {
                assert(k < sx * sy) by (nonlinear_arith) requires k == x * sy + y, x < sx, y < sy;
                assert(atlas_index_fits(t, x as int, y as int, state as int, variant as int, 0));
                let idx = tile.get_atlas_idx_from_neighborstate((x as usize, y as usize), state, variant, 0);
                let z = tile.multitile.get_z(uvec2(x, y));
                let e = next + k;
                let cmd = SpriteCommand::Spawn {
                    entity: e,
                    image: tile.image,
                    atlas_layout: tile.atlas_layout,
                    index: idx,
                    pos: ivec2(px + (x as i32 - ox), py + (oy - y as i32)),
                    z,
                };
                proof {
                    assert(tile_cells(sx as nat, sy as nat)[x * sy + y] == (x as int, y as int));
                    assert(cmd == spawn_command(*pos, t, state as int, variant as int, next as int, k as int));
                    lemma_prefix_step(x as nat, sy as nat, x as int, y as nat);
                    let pre = tile_cells(x as nat, sy as nat) + column_cells(x as int, y as nat);
                    assert(pre.push((x as int, y as int)).drop_last() =~= pre);
                    assert(pre.len() == k);
                }
                cmds.push(cmd);
                if z != 0 {
                    overlays.push(e);
                }
                proof {
                    assert(cmds@ =~= spawn_commands(*pos, t, state as int, variant as int, next as int).take(k + 1));
                }
                k = k + 1;
                y = y + 1;
            }
            proof {
                assert(tile_cells(x as nat, sy as nat) + column_cells(x as int, sy as nat) == tile_cells((x + 1) as nat, sy as nat));
                assert(x * sy + sy == (x + 1) * sy) by (nonlinear_arith);
            }
            x = x + 1;
        }
        proof {
            assert(cmds@ =~= spawn_commands(*pos, t, state as int, variant as int, next as int));
            assert(overlays@ == overlay_ids(t, t.cells(), next as int));
        }
        // store the main-layer parts
        proof {
            let p0 = placed_upto(size, c0, *pos, t, state as int, variant as int, next as int, 0);
            assert forall|a: int| 0 <= a < p0.len() implies #[trigger] p0[a] =~= c0[a] by {
                assert forall|b: int| 0 <= b < p0[a].len() implies p0[a][b] == c0[a][b] by {
                    let pc = part_cell(*pos, t, a, b);
                    if is_part(*pos, t, a, b) {
                        assert(pc.0 * t.size.y >= 0) by (nonlinear_arith) requires pc.0 >= 0, t.size.y >= 0;
                    }
                }
            }
            assert(p0 =~= c0);
        }
        let mut k: u64 = 0;
        let mut x: u32 = 0;
        while x < sx
            invariant
                t == tile@, grid_tile(t), t.coords_fit(),
                sx == t.size.x, sy == t.size.y, ox == t.origin_offset.x, oy == t.origin_offset.y,
                px == pos.x, py == pos.y, pos.x < MAX_GRID_SIZE, pos.y < MAX_GRID_SIZE,
                size == self.size_spec(), size.x <= MAX_GRID_SIZE, size.y <= MAX_GRID_SIZE,
                next == old(self).next_entity_spec(), next + sx * sy <= u64::MAX,
                self.pending() == old(self).pending(), self.next_entity_spec() == next,
                state < 16, variant < variants_drawn(t),
                c0.len() == size.x, forall|i: int| 0 <= i < c0.len() ==> #[trigger] c0[i].len() == size.y,
                x <= sx,
                k == x * sy,
                overlays@ == overlay_ids(t, t.cells(), next as int),
                self.cells() == placed_upto(size, c0, *pos, t, state as int, variant as int, next as int, k as int),
            decreases sx - x,
        {
            let mut y: u32 = 0;
            while y < sy
                invariant
                    t == tile@, grid_tile(t), t.coords_fit(),
                    sx == t.size.x, sy == t.size.y, ox == t.origin_offset.x, oy == t.origin_offset.y,
                    px == pos.x, py == pos.y, pos.x < MAX_GRID_SIZE, pos.y < MAX_GRID_SIZE,
                    size == self.size_spec(), size.x <= MAX_GRID_SIZE, size.y <= MAX_GRID_SIZE,
                    next == old(self).next_entity_spec(), next + sx * sy <= u64::MAX,
                    self.pending() == old(self).pending(), self.next_entity_spec() == next,
                    state < 16, variant < variants_drawn(t),
                    c0.len() == size.x, forall|i: int| 0 <= i < c0.len() ==> #[trigger] c0[i].len() == size.y,
                    x < sx,
                    y <= sy,
                    k == x * sy + y,
                    overlays@ == overlay_ids(t, t.cells(), next as int),
                    self.cells() == placed_upto(size, c0, *pos, t, state as int, variant as int, next as int, k as int),
                decreases sy - y,
            {
                assert(k < sx * sy) by (nonlinear_arith) requires k == x * sy + y, x < sx, y < sy;
                proof { lemma_placed_step(size, c0, *pos, t, state as int, variant as int, next as int, k as int, x as int, y as int); }
                let z = tile.multitile.get_z(uvec2(x, y));
                if z == 0 {
                    let qx = px + (x as i32 - ox);
                    let qy = py + (oy - y as i32);
                    if self.in_bounds_i(&ivec2(qx, qy)) {
                        let off = ivec2(x as i32 - ox, oy - y as i32);
                        let ov = if off == ivec2(0, 0) { copy_ids(&overlays) } else { Vec::new() };
                        let part = StoredTile {
                            entity: next + k,
                            tile_data: tile.clone(),
                            origin_offset: off,
                            overlay_tiles: ov,
                            variant,
                            neighborstate: state,
                            frame: 0,
                        };
                        proof {
                            let pc = part_cell(*pos, t, qx as int, qy as int);
                            assert(pc == (x as int, y as int));
                            assert(part@ == new_part(*pos, t, qx as int, qy as int, state as int, variant as int, next as int));
                        }
                        self.store(qx as usize, qy as usize, Some(part));
                    }
                }
                k = k + 1;
                y = y + 1;
            }
            assert(x * sy + sy == (x + 1) * sy) by (nonlinear_arith);
            x = x + 1;
        }
        self.next_entity = next + k;
        cmds
    }
}


/// A stored part showing neighbour state `st`.
pub open spec fn with_state(s: StoredSpec, st: int) -> StoredSpec {
    StoredSpec { neighborstate: st as usize, ..s }
}

impl TileGrid {
    /// Sets the neighbour state of the part at (x, y), if any.
    fn set_state(&mut self, x: usize, y: usize, st: usize)
        requires
            x < old(self).cells().len(),
            y < old(self).cells()[x as int].len(),
        ensures
            final(self).cells() == match old(self).cells()[x as int][y as int] {
                Option::Some(s) => set_cell(old(self).cells(), x as int, y as int, Option::Some(with_state(s, st as int))),
                Option::None => old(self).cells(),
            },
            final(self).size_spec() == old(self).size_spec(),
            final(self).pending() == old(self).pending(),
            final(self).next_entity_spec() == old(self).next_entity_spec(),
    {
        proof { self.lemma_cell_view(x as int, y as int); }
        match &mut self.tiles[x][y] {
            Some(t) => {
                t.neighborstate = st;
            },
            None => {},
        }
        proof {
            let c = old(self).cells();
            let goal = match c[x as int][y as int] {
                Option::Some(s) => set_cell(c, x as int, y as int, Option::Some(with_state(s, st as int))),
                Option::None => c,
            };
            assert forall|i: int| 0 <= i < self.cells().len() implies #[trigger] self.cells()[i] =~= goal[i] by {
                if i == x {
                    assert forall|j: int| 0 <= j < self.cells()[i].len() implies self.cells()[i][j] == goal[i][j] by {
                        if j == y {
                            self.lemma_cell_view(i, j);
                        }
                    }
                }
            }
            assert(self.cells() =~= goal);
        }
    }
}


/// The command showing, on part `x`, its sprite for state `st`, variant `variant`
/// and frame `frame`.
pub open spec fn index_cmd(x: StoredSpec, st: int, variant: int, frame: int) -> SpriteCommand {
    SpriteCommand::SetIndex {
        entity: x.entity,
        atlas_layout: x.tile.atlas_layout,
        index: atlas_index(x.tile, rel_of(x).0, rel_of(x).1, st, variant, frame) as usize,
    }
}

/// Refreshing the parts at (px, py) plus each offset of `offs`: each present part
/// gets state `st` and a command showing its sprite for `st`, `variant`, `frame`.
pub open spec fn main_fold(size: UVec2, c: Cells, px: int, py: int, st: int, variant: int, frame: int,
    offs: Seq<IVec2>) -> (Cells, Seq<SpriteCommand>)
    decreases offs.len(),
{
    if offs.len() == 0 {
        (c, Seq::empty())
    } else {
        let prev = main_fold(size, c, px, py, st, variant, frame, offs.drop_last());
        let o = offs.last();
        let qx = px + o.x;
        let qy = py + o.y;
        if in_grid(size, qx, qy) && prev.0[qx][qy] is Some {
            let x = prev.0[qx][qy].unwrap();
            (set_cell(prev.0, qx, qy, Option::Some(with_state(x, st))), prev.1.push(index_cmd(x, st, variant, frame)))
        } else {
            prev
        }
    }
}

/// The overlay commands of part `s` for state `st`: one per overlay sprite it
/// owns, as far as its tile has overlay cells.
pub open spec fn overlay_cmds(s: StoredSpec, st: int) -> Seq<SpriteCommand> {
    let ov = overlay_indices(s.tile, s.tile.cells(), st, s.variant as int, s.frame as int);
    let n = if ov.len() < s.overlays.len() { ov.len() } else { s.overlays.len() };
    Seq::new(n, |i: int| SpriteCommand::SetIndex { entity: s.overlays[i], atlas_layout: s.tile.atlas_layout, index: ov[i] })
}

/// Refreshing the tile whose origin is at (px, py), on behalf of its part `s`:
/// the state is recomputed; the origin and every main-layer part get it; the
/// overlays of `s`, the main-layer parts and `s` itself show their new sprites.
pub open spec fn update_neighbor_spec(size: UVec2, c: Cells, px: int, py: int, s: StoredSpec) -> (Cells, Seq<SpriteCommand>) {
    let st = neighbor_state(size, c, px, py, s.tile);
    let c1 = if c[px][py] is Some { set_cell(c, px, py, Option::Some(with_state(c[px][py].unwrap(), st))) } else { c };
    let m = main_fold(size, c1, px, py, st, s.variant as int, s.frame as int, main_offsets(s.tile, s.tile.cells()));
    (m.0, overlay_cmds(s, st) + m.1 + seq![index_cmd(s, st, s.variant as int, s.frame as int)])
}

/// The parts of two cell grids agree but for their neighbour states.
pub open spec fn same_but_states(a: Cells, b: Cells) -> bool {
    &&& a.len() == b.len()
    &&& forall|x: int| 0 <= x < a.len() ==> #[trigger] a[x].len() == b[x].len()
    &&& forall|x: int, y: int| 0 <= x < a.len() && 0 <= y < a[x].len() ==> {
        &&& (#[trigger] a[x][y]) is Some == b[x][y] is Some
        &&& a[x][y] is Some ==> with_state(a[x][y].unwrap(), 0) == with_state(b[x][y].unwrap(), 0)
    }
}

/// A part `s` whose tile has its origin at (px, py) can be refreshed: a grid
/// tile kind, a drawn variant and frame, a main cell of its tile, and every
/// main-layer cell of its tile inside the grid holding a part of that kind.
pub open spec fn refreshable(size: UVec2, c: Cells, px: int, py: int, s: StoredSpec) -> bool {
    &&& grid_tile(s.tile)
    &&& s.variant < variants_drawn(s.tile)
    &&& s.frame < frames_drawn(s.tile)
    &&& main_cell(s.tile, rel_of(s).0, rel_of(s).1)
    &&& forall|cx: int, cy: int| main_cell(s.tile, cx, cy) ==> #[trigger] sibling_at(size, c, px, py, s.tile, cx, cy)
}

/// Main cell (cx, cy) of a `t` tile with origin at (px, py) lies outside the grid
/// or holds a part of kind `t`.
pub open spec fn sibling_at(size: UVec2, c: Cells, px: int, py: int, t: TileSpec, cx: int, cy: int) -> bool {
    let off = cell_offset(t, (cx, cy));
    in_grid(size, px + off.x, py + off.y) ==> (c[px + off.x][py + off.y] is Some && c[px + off.x][py + off.y].unwrap().tile == t)
}

proof fn lemma_same_but_states_trans(a: Cells, b: Cells, c: Cells)
    requires
        same_but_states(a, b),
        same_but_states(b, c),
    ensures
        same_but_states(a, c),
{
    assert forall|x: int, y: int| 0 <= x < a.len() && 0 <= y < a[x].len() implies {
        &&& (#[trigger] a[x][y]) is Some == c[x][y] is Some
        &&& a[x][y] is Some ==> with_state(a[x][y].unwrap(), 0) == with_state(c[x][y].unwrap(), 0)
    } by {
        assert(b[x][y] is Some == a[x][y] is Some);
    }
}

proof fn lemma_same_but_states_refl(a: Cells)
    ensures
        same_but_states(a, a),
{
}

proof fn lemma_set_state_same(c: Cells, x: int, y: int, st: int)
    requires
        0 <= x < c.len(),
        0 <= y < c[x].len(),
        c[x][y] is Some,
    ensures
        same_but_states(c, set_cell(c, x, y, Option::Some(with_state(c[x][y].unwrap(), st)))),
{
    let d = set_cell(c, x, y, Option::Some(with_state(c[x][y].unwrap(), st)));
    assert forall|i: int, j: int| 0 <= i < c.len() && 0 <= j < c[i].len() implies {
        &&& (#[trigger] c[i][j]) is Some == d[i][j] is Some
        &&& c[i][j] is Some ==> with_state(c[i][j].unwrap(), 0) == with_state(d[i][j].unwrap(), 0)
    } by {
        if i == x && j == y {
            assert(d[i][j] == Option::Some(with_state(c[x][y].unwrap(), st)));
        }
    }
}

/// The neighbour state only depends on which parts are stored where.
proof fn lemma_state_same(size: UVec2, a: Cells, b: Cells, px: int, py: int, t: TileSpec, offs: Seq<(IVec2, usize)>)
    requires
        same_but_states(a, b),
        a.len() == size.x,
        forall|x: int| 0 <= x < a.len() ==> #[trigger] a[x].len() == size.y,
    ensures
        state_sum(size, a, px, py, t, offs) == state_sum(size, b, px, py, t, offs),
    decreases offs.len(),
{
    if offs.len() > 0 {
        lemma_state_same(size, a, b, px, py, t, offs.drop_last());
        let o = offs.last();
        let qx = px + o.0.x;
        let qy = py + o.0.y;
        if in_grid(size, qx, qy) {
            assert(a[qx][qy] is Some == b[qx][qy] is Some);
            if a[qx][qy] is Some {
                assert(with_state(a[qx][qy].unwrap(), 0) == with_state(b[qx][qy].unwrap(), 0));
            }
        }
    }
}

/// Refreshability only depends on which parts are stored where.
proof fn lemma_refreshable_same(size: UVec2, a: Cells, b: Cells, px: int, py: int, s: StoredSpec)
    requires
        same_but_states(a, b),
        a.len() == size.x,
        forall|x: int| 0 <= x < a.len() ==> #[trigger] a[x].len() == size.y,
        refreshable(size, a, px, py, s),
    ensures
        refreshable(size, b, px, py, s),
{
    assert forall|cx: int, cy: int| main_cell(s.tile, cx, cy) implies #[trigger] sibling_at(size, b, px, py, s.tile, cx, cy) by {
        assert(sibling_at(size, a, px, py, s.tile, cx, cy));
        let off = cell_offset(s.tile, (cx, cy));
        let qx = px + off.x;
        let qy = py + off.y;
        if in_grid(size, qx, qy) {
            assert(a[qx][qy] is Some == b[qx][qy] is Some);
            assert(with_state(a[qx][qy].unwrap(), 0) == with_state(b[qx][qy].unwrap(), 0));
        }
    }
}


proof fn lemma_tile_cells_in_range(w: nat, h: nat)
    ensures
        forall|k: int| 0 <= k < tile_cells(w, h).len() ==>
            0 <= (#[trigger] tile_cells(w, h)[k]).0 < w && 0 <= tile_cells(w, h)[k].1 < h,
    decreases w,
{
    if w > 0 {
        lemma_tile_cells_in_range((w - 1) as nat, h);
        let prev = tile_cells((w - 1) as nat, h);
        assert forall|k: int| 0 <= k < tile_cells(w, h).len() implies
            0 <= (#[trigger] tile_cells(w, h)[k]).0 < w && 0 <= tile_cells(w, h)[k].1 < h by {
            if k < prev.len() {
                assert(tile_cells(w, h)[k] == prev[k]);
            }
        }
    }
}

/// Every main offset is the offset of a main-layer cell among `cells`.
proof fn lemma_main_offsets_witness(t: TileSpec, cells: Seq<(int, int)>, k: int)
    requires
        0 <= k < main_offsets(t, cells).len(),
    ensures
        exists|i: int| 0 <= i < cells.len() && z_at(t.mask, cells[i].0, cells[i].1) == 0
            && main_offsets(t, cells)[k] == cell_offset(t, #[trigger] cells[i]),
    decreases cells.len(),
{
    let rest = main_offsets(t, cells.drop_last());
    let c = cells.last();
    if z_at(t.mask, c.0, c.1) == 0 && k == rest.len() {
        assert(cells[cells.len() - 1] == c);
    } else {
        lemma_main_offsets_witness(t, cells.drop_last(), k);
        let i = choose|i: int| 0 <= i < cells.drop_last().len() && z_at(t.mask, cells.drop_last()[i].0, cells.drop_last()[i].1) == 0
            && main_offsets(t, cells.drop_last())[k] == cell_offset(t, #[trigger] cells.drop_last()[i]);
        assert(cells[i] == cells.drop_last()[i]);
    }
}

/// Every main offset of a tile is the offset of one of its main cells.
proof fn lemma_main_offset_is_main(t: TileSpec, k: int) -> (w: (int, int))
    requires
        0 <= k < main_offsets(t, t.cells()).len(),
    ensures
        main_cell(t, w.0, w.1),
        main_offsets(t, t.cells())[k] == cell_offset(t, w),
{
    lemma_main_offsets_witness(t, t.cells(), k);
    lemma_tile_cells_in_range(t.size.x as nat, t.size.y as nat);
    let i = choose|i: int| 0 <= i < t.cells().len() && z_at(t.mask, t.cells()[i].0, t.cells()[i].1) == 0
        && main_offsets(t, t.cells())[k] == cell_offset(t, #[trigger] t.cells()[i]);
    t.cells()[i]
}

/// Grids that agree but for neighbour states are equally consistent.
proof fn lemma_wf_same(size: UVec2, a: Cells, b: Cells)
    requires
        same_but_states(a, b),
        cells_wf(size, a),
    ensures
        cells_wf(size, b),
{
    assert forall|x: int| 0 <= x < b.len() implies #[trigger] b[x].len() == size.y by {
        assert(a[x].len() == b[x].len());
    }
    assert forall|x: int, y: int| in_grid(size, x, y) implies #[trigger] stored_ok(size, b, x, y) by {
        assert(stored_ok(size, a, x, y));
        assert(a[x][y] is Some == b[x][y] is Some);
        if b[x][y] is Some {
            let sa = a[x][y].unwrap();
            let sb = b[x][y].unwrap();
            assert(with_state(sa, 0) == with_state(sb, 0));
            assert(sa.tile == sb.tile && sa.origin_offset == sb.origin_offset && sa.variant == sb.variant && sa.frame == sb.frame);
            assert forall|cx: int, cy: int| main_cell(sb.tile, cx, cy) implies #[trigger] sibling_present(size, b, x, y, sb, cx, cy) by {
                assert(sibling_present(size, a, x, y, sa, cx, cy));
                let off = cell_offset(sa.tile, (cx, cy));
                let qx = x - sa.origin_offset.x + off.x;
                let qy = y - sa.origin_offset.y + off.y;
                if in_grid(size, qx, qy) {
                    assert(a[qx][qy] is Some == b[qx][qy] is Some);
                    assert(with_state(a[qx][qy].unwrap(), 0) == with_state(b[qx][qy].unwrap(), 0));
                }
            }
        }
    }
}


/// The overlay command list after `i` overlay indices.
pub open spec fn overlay_cmds_upto(s: StoredSpec, st: int, i: int) -> Seq<SpriteCommand> {
    let ov = overlay_indices(s.tile, s.tile.cells(), st, s.variant as int, s.frame as int);
    let n = if i < s.overlays.len() { i } else { s.overlays.len() as int };
    Seq::new(n as nat, |k: int| SpriteCommand::SetIndex { entity: s.overlays[k], atlas_layout: s.tile.atlas_layout, index: ov[k] })
}

impl TileGrid {
    /// The command showing, on the part `x`, its sprite for state `st`, variant
    /// `variant` and frame `frame`.
    fn index_command(x: &StoredTile, st: usize, variant: usize, frame: usize) -> (r: SpriteCommand)
        requires
            grid_tile(x.tile_data@),
            main_cell(x.tile_data@, rel_of(x@).0, rel_of(x@).1),
            variant < variants_drawn(x.tile_data@),
            frame < frames_drawn(x.tile_data@),
        ensures
            r == index_cmd(x@, st as int, variant as int, frame as int),
    {
        let ghost t = x.tile_data@;
        let rel = if x.origin_offset != ivec2(0, 0) {
            x.tile_data.origin_offset_to_relative(x.origin_offset)
        } else {
            x.tile_data.origin_offset
        };
        assert(rel.x == rel_of(x@).0 && rel.y == rel_of(x@).1);
        proof {
            crate::tiles::lemma_atlas_index_in_grid(t, rel.x as int, rel.y as int, st as int, variant as int, frame as int);
        }
        let index = x.tile_data.get_atlas_idx_from_neighborstate((rel.x as usize, rel.y as usize), st, variant, frame);
        SpriteCommand::SetIndex { entity: x.entity, atlas_layout: x.tile_data.atlas_layout, index }
    }

    /// Refreshes the tile whose origin is at `pos`, on behalf of its part `tile`
    /// (see `update_neighbor_spec`).
    fn update_neighbor(&mut self, pos: &UVec2, tile: &StoredTile) -> (cmds: Vec<SpriteCommand>)
        requires
            old(self).wf(),
            in_grid(old(self).size_spec(), pos.x as int, pos.y as int),
            refreshable(old(self).size_spec(), old(self).cells(), pos.x as int, pos.y as int, tile@),
        ensures
            (final(self).cells(), cmds@) == update_neighbor_spec(old(self).size_spec(), old(self).cells(),
                pos.x as int, pos.y as int, tile@),
            same_but_states(old(self).cells(), final(self).cells()),
            final(self).wf(),
            final(self).size_spec() == old(self).size_spec(),
            final(self).pending() == old(self).pending(),
            final(self).next_entity_spec() == old(self).next_entity_spec(),
    {
        let ghost size = self.size;
        let ghost c0 = self.cells();
        let ghost s = tile@;
        let ghost t = tile.tile_data@;
        let st = self.get_state(pos, &tile.tile_data);
        proof {
            self.lemma_cell_view(pos.x as int, pos.y as int);
            if c0[pos.x as int][pos.y as int] is Some {
                lemma_set_state_same(c0, pos.x as int, pos.y as int, st as int);
            }
        }
        self.set_state(pos.x as usize, pos.y as usize, st);
        let ghost c1 = self.cells();
        proof {
            lemma_wf_same(size, c0, c1);
            lemma_refreshable_same(size, c0, c1, pos.x as int, pos.y as int, s);
        }
        let frame = tile.frame;
        let variant = tile.variant;
        let mut cmds = Self::overlay_commands(tile, st);
        let ghost ocmds = cmds@;
        let offs = tile.tile_data.iter_offsets_masked();
        let px = pos.x as i32;
        let py = pos.y as i32;
        let mut j: usize = 0;
        while j < offs.len()
            invariant
                s == tile@, t == tile.tile_data@, grid_tile(t),
                size == self.size_spec(), size.x <= MAX_GRID_SIZE, size.y <= MAX_GRID_SIZE,
                offs@ == main_offsets(t, t.cells()),
                px == pos.x, py == pos.y, pos.x < MAX_GRID_SIZE, pos.y < MAX_GRID_SIZE,
                variant == s.variant, frame == s.frame, variant < variants_drawn(t), frame < frames_drawn(t),
                self.wf(),
                same_but_states(c1, self.cells()),
                refreshable(size, self.cells(), pos.x as int, pos.y as int, s),
                self.pending() == old(self).pending(),
                self.next_entity_spec() == old(self).next_entity_spec(),
                j <= offs.len(),
                cmds@ == ocmds + main_fold(size, c1, pos.x as int, pos.y as int, st as int, variant as int, frame as int,
                    offs@.take(j as int)).1,
                self.cells() == main_fold(size, c1, pos.x as int, pos.y as int, st as int, variant as int, frame as int,
                    offs@.take(j as int)).0,
            decreases offs.len() - j,
        {
            let ghost w = lemma_main_offset_is_main(t, j as int);
            let o = offs[j];
            proof {
                assert(offs@.take(j + 1).drop_last() =~= offs@.take(j as int));
                assert(sibling_at(size, self.cells(), pos.x as int, pos.y as int, t, w.0, w.1));
            }
            let qx = px + o.x;
            let qy = py + o.y;
            if self.in_bounds_i(&ivec2(qx, qy)) {
                proof { self.lemma_cell_view(qx as int, qy as int); }
                let found = match &self.tiles[qx as usize][qy as usize] {
                    Some(x) => {
                        proof {
                            assert(x.tile_data@ == t);
                            assert(stored_ok(size, self.cells(), qx as int, qy as int));
                        }
                        Some(Self::index_command(x, st, variant, frame))
                    },
                    None => None,
                };
                match found {
                    Some(cmd) => {
                        let ghost cb = self.cells();
                        proof {
                            lemma_set_state_same(cb, qx as int, qy as int, st as int);
                            lemma_same_but_states_trans(c1, cb,
                                set_cell(cb, qx as int, qy as int, Option::Some(with_state(cb[qx as int][qy as int].unwrap(), st as int))));
                        }
                        self.set_state(qx as usize, qy as usize, st);
                        proof {
                            lemma_wf_same(size, cb, self.cells());
                            lemma_refreshable_same(size, cb, self.cells(), pos.x as int, pos.y as int, s);
                        }
                        cmds.push(cmd);
                    },
                    None => {},
                }
            }
            j = j + 1;
        }
        assert(offs@.take(offs.len() as int) =~= offs@);
        proof { lemma_same_but_states_trans(c0, c1, self.cells()); }
        let last = Self::index_command(tile, st, variant, frame);
        cmds.push(last);
        cmds
    }
}


/// Refreshing around a changed `t` tile at (px, py), after the first `n` cells
/// to refresh: each refresh cell holding a reacting `t` part whose origin holds
/// the `t` origin part gets that tile refreshed, once per origin.
pub open spec fn nbr_fold(size: UVec2, c: Cells, px: int, py: int, t: TileSpec, n: nat)
    -> (Cells, Seq<SpriteCommand>, Set<(int, int)>)
    decreases n,
{
    if n == 0 {
        (c, Seq::empty(), Set::empty())
    } else {
        let prev = nbr_fold(size, c, px, py, t, (n - 1) as nat);
        let o = t.to_update[n - 1];
        let qx = px + o.x;
        let qy = py + o.y;
        if in_grid(size, qx, qy) && prev.0[qx][qy] is Some && prev.0[qx][qy].unwrap().tile == t
            && t.reaction != TileNeighborReaction::NoReaction {
            let s = prev.0[qx][qy].unwrap();
            let ox = qx - s.origin_offset.x;
            let oy = qy - s.origin_offset.y;
            if in_grid(size, ox, oy) && !prev.2.contains((ox, oy)) && prev.0[ox][oy] is Some
                && prev.0[ox][oy].unwrap().tile == t && prev.0[ox][oy].unwrap().origin_offset == zero_vec() {
                let u = update_neighbor_spec(size, prev.0, ox, oy, s);
                (u.0, prev.1 + u.1, prev.2.insert((ox, oy)))
            } else {
                prev
            }
        } else {
            prev
        }
    }
}

/// Refreshing around a changed `t` tile at (px, py): the cells and the commands.
pub open spec fn update_neighbor_tiles_spec(size: UVec2, c: Cells, px: int, py: int, t: TileSpec) -> (Cells, Seq<SpriteCommand>) {
    let r = nbr_fold(size, c, px, py, t, t.to_update.len());
    (r.0, r.1)
}

fn copy_stored(s: &StoredTile) -> (r: StoredTile)
    ensures
        r@ == s@,
{
    StoredTile {
        entity: s.entity,
        tile_data: s.tile_data.clone(),
        origin_offset: s.origin_offset,
        overlay_tiles: copy_ids(&s.overlay_tiles),
        variant: s.variant,
        neighborstate: s.neighborstate,
        frame: s.frame,
    }
}

pub(crate) fn contains_pos(v: &Vec<IVec2>, p: IVec2) -> (r: bool)
    ensures
        r == v@.contains(p),
{
    let mut i: usize = 0;
    while i < v.len()
        invariant
            i <= v.len(),
            forall|k: int| 0 <= k < i ==> v@[k] != p,
        decreases v.len() - i,
    {
        if v[i] == p {
            return true;
        }
        i = i + 1;
    }
    false
}

/// The bound on positions refreshed around a tile.
pub open spec fn near_grid(p: int) -> bool {
    -2 * (MAX_TILE_EXTENT as int) <= p <= MAX_GRID_SIZE + 2 * (MAX_TILE_EXTENT as int)
}

impl TileGrid {
    /// Refreshes the tiles around a changed `tile` tile at (px, py)
    /// (see `update_neighbor_tiles_spec`).
    fn update_neighbor_tiles(&mut self, px: i32, py: i32, tile: &TileData) -> (cmds: Vec<SpriteCommand>)
        requires
            old(self).wf(),
            grid_tile(tile@),
            near_grid(px as int),
            near_grid(py as int),
        ensures
            (final(self).cells(), cmds@) == update_neighbor_tiles_spec(old(self).size_spec(), old(self).cells(),
                px as int, py as int, tile@),
            same_but_states(old(self).cells(), final(self).cells()),
            final(self).wf(),
            final(self).size_spec() == old(self).size_spec(),
            final(self).pending() == old(self).pending(),
            final(self).next_entity_spec() == old(self).next_entity_spec(),
    {
        let ghost size = self.size;
        let ghost c0 = self.cells();
        let ghost t = tile@;
        let mut cmds: Vec<SpriteCommand> = Vec::new();
        let mut updated: Vec<IVec2> = Vec::new();
        let mut i: usize = 0;
        proof { lemma_same_but_states_refl(c0); }
        while i < tile.to_update.len()
            invariant
                t == tile@, grid_tile(t),
                size == self.size_spec(), size.x <= MAX_GRID_SIZE, size.y <= MAX_GRID_SIZE,
                near_grid(px as int), near_grid(py as int),
                self.wf(),
                same_but_states(c0, self.cells()),
                self.pending() == old(self).pending(),
                self.next_entity_spec() == old(self).next_entity_spec(),
                i <= tile.to_update.len(),
                self.cells() == nbr_fold(size, c0, px as int, py as int, t, i as nat).0,
                cmds@ == nbr_fold(size, c0, px as int, py as int, t, i as nat).1,
                forall|p: IVec2| updated@.contains(p) <==> nbr_fold(size, c0, px as int, py as int, t, i as nat).2.contains((p.x as int, p.y as int)),
                forall|a: int, b: int| nbr_fold(size, c0, px as int, py as int, t, i as nat).2.contains((a, b))
                    ==> i32::MIN <= a <= i32::MAX && i32::MIN <= b <= i32::MAX,
            decreases tile.to_update.len() - i,
        {
            let ghost prev = nbr_fold(size, c0, px as int, py as int, t, i as nat);
            let o = tile.to_update[i];
            assert(t.to_update[i as int] == o);
            let qx = px + o.x;
            let qy = py + o.y;
            if self.in_bounds_i(&ivec2(qx, qy)) {
                proof { self.lemma_cell_view(qx as int, qy as int); }
                let mut origin: Option<(IVec2, StoredTile)> = None;
                match &self.tiles[qx as usize][qy as usize] {
                    Some(stored) => {
                        if stored.tile_data.same_as(tile) && tile.has_reaction() {
                            proof { assert(stored_ok(size, self.cells(), qx as int, qy as int)); }
                            let ogx = qx - stored.origin_offset.x;
                            let ogy = qy - stored.origin_offset.y;
                            let og = ivec2(ogx, ogy);
                            if self.in_bounds_i(&og) && !contains_pos(&updated, og) {
                                proof { self.lemma_cell_view(ogx as int, ogy as int); }
                                match &self.tiles[ogx as usize][ogy as usize] {
                                    Some(n) => {
                                        if n.tile_data.same_as(tile) && n.origin_offset == ivec2(0, 0) {
                                            origin = Some((og, copy_stored(stored)));
                                        }
                                    },
                                    None => {},
                                }
                            }
                        }
                    },
                    None => {},
                }
                match origin {
                    Some((og, s)) => {
                        proof {
                            let sv = s@;
                            assert(stored_ok(size, self.cells(), qx as int, qy as int));
                            assert forall|cx: int, cy: int| main_cell(sv.tile, cx, cy)
                                implies #[trigger] sibling_at(size, self.cells(), og.x as int, og.y as int, sv.tile, cx, cy) by {
                                assert(sibling_present(size, self.cells(), qx as int, qy as int, sv, cx, cy));
                            }
                            assert(!prev.2.contains((og.x as int, og.y as int)));
                        }
                        let ghost cb = self.cells();
                        let more = self.update_neighbor(&uvec2(og.x as u32, og.y as u32), &s);
                        proof { lemma_same_but_states_trans(c0, cb, self.cells()); }
                        let mut more = more;
                        cmds.append(&mut more);
                        let ghost ub = updated@;
                        updated.push(og);
                        proof {
                            let next_seen = prev.2.insert((og.x as int, og.y as int));
                            assert(updated@ == ub.push(og));
                            assert forall|p: IVec2| updated@.contains(p) <==> next_seen.contains((p.x as int, p.y as int)) by {
                                if updated@.contains(p) && p != og {
                                    let k = choose|k: int| 0 <= k < updated@.len() && updated@[k] == p;
                                    assert(ub[k] == p);
                                    assert(ub.contains(p));
                                }
                                if ub.contains(p) {
                                    let k = choose|k: int| 0 <= k < ub.len() && ub[k] == p;
                                    assert(updated@[k] == p);
                                }
                                if p == og {
                                    assert(updated@[ub.len() as int] == og);
                                }
                                if next_seen.contains((p.x as int, p.y as int)) && p != og {
                                    assert((p.x as int, p.y as int) != (og.x as int, og.y as int));
                                    assert(prev.2.contains((p.x as int, p.y as int)));
                                }
                            }
                        }
                    },
                    None => {},
                }
            }
            i = i + 1;
        }
        cmds
    }
}


proof fn lemma_part_index(t: TileSpec, cx: int, cy: int)
    requires
        0 <= cx < t.size.x,
        0 <= cy < t.size.y,
    ensures
        0 <= cell_index(t, cx, cy) < t.size.x * t.size.y,
{
    assert(0 <= cx * t.size.y + cy < t.size.x * t.size.y) by (nonlinear_arith)
        requires 0 <= cx < t.size.x, 0 <= cy < t.size.y;
}

/// Placing a grid tile where the placement check allows it keeps the grid
/// consistent: the new parts only fill empty cells and make a whole tile.
pub proof fn lemma_place_keeps_wf(size: UVec2, c: Cells, pos: UVec2, t: TileSpec, st: int, v: int, next: int)
    requires
        cells_wf(size, c),
        grid_tile(t),
        0 <= v < variants_drawn(t),
        0 <= st,
        in_grid(size, pos.x as int, pos.y as int),
        can_be_placed_spec(size, c, pos, t),
        !hidden_cell_taken(size, c, pos, t),
    ensures
        cells_wf(size, placed_cells(size, c, pos, t, st, v, next)),
{
    let c1 = placed_cells(size, c, pos, t, st, v, next);
    let a = place_anchor(pos, t);
    assert forall|x: int| 0 <= x < c1.len() implies #[trigger] c1[x].len() == size.y by {
        assert(c[x].len() == size.y);
    }
    // a cell that gets a new part was empty before
    assert forall|x: int, y: int| in_grid(size, x, y) && is_part(pos, t, x, y) implies #[trigger] c[x][y] is None by {
        let pc = part_cell(pos, t, x, y);
        assert(main_cell(t, pc.0, pc.1));
        assert(a.0 + pc.0 == x && a.1 - pc.1 == y);
        assert(free(size, c, a.0 + pc.0, a.1 - pc.1));
    }
    assert forall|x: int, y: int| in_grid(size, x, y) implies #[trigger] stored_ok(size, c1, x, y) by {
        if is_part(pos, t, x, y) {
            let s = new_part(pos, t, x, y, st, v, next);
            lemma_part_index(t, part_cell(pos, t, x, y).0, part_cell(pos, t, x, y).1);
            assert(c[x].len() == size.y);
            assert(c1[x][y] == Option::Some(s));
            assert(rel_of(s) == part_cell(pos, t, x, y));
            assert forall|cx: int, cy: int| main_cell(s.tile, cx, cy) implies #[trigger] sibling_present(size, c1, x, y, s, cx, cy) by {
                let off = cell_offset(t, (cx, cy));
                let qx = x - s.origin_offset.x + off.x;
                let qy = y - s.origin_offset.y + off.y;
                assert(part_cell(pos, t, qx, qy) == (cx, cy));
                if in_grid(size, qx, qy) {
                    lemma_part_index(t, cx, cy);
                    assert(c[qx].len() == size.y);
                    assert(c1[qx][qy] == Option::Some(new_part(pos, t, qx, qy, st, v, next)));
                }
            }
        } else {
            assert(c1[x][y] == c[x][y]);
            assert(stored_ok(size, c, x, y));
            if c[x][y] is Some {
                let s = c[x][y].unwrap();
                assert forall|cx: int, cy: int| main_cell(s.tile, cx, cy) implies #[trigger] sibling_present(size, c1, x, y, s, cx, cy) by {
                    assert(sibling_present(size, c, x, y, s, cx, cy));
                    let off = cell_offset(s.tile, (cx, cy));
                    let qx = x - s.origin_offset.x + off.x;
                    let qy = y - s.origin_offset.y + off.y;
                    if in_grid(size, qx, qy) {
                        assert(c[qx][qy] is Some);
                        if is_part(pos, t, qx, qy) {
                            assert(c[qx][qy] is None);
                        }
                        assert(c1[qx][qy] == c[qx][qy]);
                    }
                }
            }
        }
    }
}

/// The variant a tile is placed with: the sampled one when it lists several.
pub open spec fn effective_variant(t: TileSpec, sampled: int) -> int {
    if t.variant_count > 1 { sampled } else { 0 }
}

/// Placing tile `t` at `pos` (the sampled variant is used when `t` lists several):
/// nothing happens where the placement check fails or the cell is taken;
/// otherwise every cell gets a sprite, the main-layer parts are stored and the
/// reacting tiles around the tile's origin corner are refreshed.
pub open spec fn set_tile_spec(size: UVec2, c: Cells, next: int, pos: UVec2, t: TileSpec, sampled: int)
    -> (Cells, Seq<SpriteCommand>, int) {
    if !can_be_placed_spec(size, c, pos, t) || c[pos.x as int][pos.y as int] is Some {
        (c, Seq::empty(), next)
    } else {
        let st = neighbor_state(size, c, pos.x as int, pos.y as int, t);
        let v = effective_variant(t, sampled);
        let c1 = placed_cells(size, c, pos, t, st, v, next);
        let u = update_neighbor_tiles_spec(size, c1, pos.x + t.origin_offset.x, pos.y + t.origin_offset.y, t);
        (u.0, spawn_commands(pos, t, st, v, next) + u.1, next + t.size.x * t.size.y)
    }
}

/// Placing `t` at `pos` panics: the placement check wraps a coordinate, or the
/// cell already holds a part of another kind (that update is not written yet).
pub open spec fn set_tile_panics(size: UVec2, c: Cells, pos: UVec2, t: TileSpec) -> bool {
    ||| placement_overflows(size, pos, t)
    ||| (can_be_placed_spec(size, c, pos, t) && c[pos.x as int][pos.y as int] is Some
        && c[pos.x as int][pos.y as int].unwrap().tile != t)
}

impl TileGrid {
    /// Places `tile` at `pos` now (see `set_tile_spec`); `sampled_variant` is the
    /// variant drawn from the tile's chances.
    fn set_tile(&mut self, pos: &UVec2, tile: &TileData, sampled_variant: usize) -> (cmds: Vec<SpriteCommand>)
        requires
            old(self).wf(),
            in_grid(old(self).size_spec(), pos.x as int, pos.y as int),
            placeable_shape(tile@),
            can_be_placed_spec(old(self).size_spec(), old(self).cells(), *pos, tile@) ==> tile@.reaction.has_offsets(),
            !set_tile_panics(old(self).size_spec(), old(self).cells(), *pos, tile@),
            !placement_overwrites(old(self).size_spec(), old(self).cells(), *pos, tile@),
            tile.variant_count > 1 ==> sampled_variant < tile.variant_count,
            old(self).next_entity_spec() + tile@.size.x * tile@.size.y <= u64::MAX,
        ensures
            ({
                let r = set_tile_spec(old(self).size_spec(), old(self).cells(), old(self).next_entity_spec() as int,
                    *pos, tile@, sampled_variant as int);
                &&& final(self).cells() == r.0
                &&& cmds@ == r.1
                &&& final(self).next_entity_spec() == r.2
            }),
            final(self).wf(),
            final(self).size_spec() == old(self).size_spec(),
            final(self).pending() == old(self).pending(),
    {
        if !self.can_be_placed(pos, tile) {
            return Vec::new();
        }
        let variant = if tile.variant_count > 1 { sampled_variant } else { 0 };
        let state = self.get_state(pos, tile);
        proof { self.lemma_cell_view(pos.x as int, pos.y as int); }
        if self.tiles[pos.x as usize][pos.y as usize].is_some() {
            return Vec::new();
        }
        let ghost c0 = self.cells();
        let ghost size = self.size;
        let mut cmds = self.spawn_and_store(pos, tile, state, variant);
        proof {
            lemma_place_keeps_wf(size, c0, *pos, tile@, state as int, variant as int, old(self).next_entity_spec() as int);
        }
        let px = pos.x as i32 + tile.origin_offset.x as i32;
        let py = pos.y as i32 + tile.origin_offset.y as i32;
        let mut more = self.update_neighbor_tiles(px, py, tile);
        cmds.append(&mut more);
        cmds
    }
}


/// Despawn commands for every sprite of `ids`.
pub open spec fn despawn_cmds(ids: Seq<u64>) -> Seq<SpriteCommand> {
    ids.map_values(|e: u64| SpriteCommand::Despawn { entity: e })
}

/// Erasing the parts at (bx, by) plus each offset of `offs`: each present part
/// is removed and its overlay sprites and its own sprite are despawned.
pub open spec fn erase_fold(size: UVec2, c: Cells, bx: int, by: int, offs: Seq<IVec2>) -> (Cells, Seq<SpriteCommand>)
    decreases offs.len(),
{
    if offs.len() == 0 {
        (c, Seq::empty())
    } else {
        let prev = erase_fold(size, c, bx, by, offs.drop_last());
        let o = offs.last();
        let qx = bx + o.x;
        let qy = by + o.y;
        if in_grid(size, qx, qy) && prev.0[qx][qy] is Some {
            let x = prev.0[qx][qy].unwrap();
            (set_cell(prev.0, qx, qy, Option::None),
             prev.1 + despawn_cmds(x.overlays) + seq![SpriteCommand::Despawn { entity: x.entity }])
        } else {
            prev
        }
    }
}

/// Removing what is at `pos`: nothing when the cell is empty; a single tile
/// loses its sprite; a multi-cell tile loses all its main-layer parts, their
/// overlay sprites and their sprites; then the reacting tiles around it are refreshed.
pub open spec fn despawn_spec(size: UVec2, c: Cells, pos: UVec2) -> (Cells, Seq<SpriteCommand>) {
    let px = pos.x as int;
    let py = pos.y as int;
    match c[px][py] {
        Option::None => (c, Seq::empty()),
        Option::Some(s) => {
            if s.tile.mask is None {
                let u = update_neighbor_tiles_spec(size, set_cell(c, px, py, Option::None), px, py, s.tile);
                (u.0, seq![SpriteCommand::Despawn { entity: s.entity }] + u.1)
            } else {
                let e = erase_fold(size, c, px - s.origin_offset.x, py - s.origin_offset.y,
                    main_offsets(s.tile, s.tile.cells()));
                let lux = s.origin_offset.x - s.tile.origin_offset.x;
                let luy = s.origin_offset.y - s.tile.origin_offset.y;
                let u = update_neighbor_tiles_spec(size, e.0, px - lux, py - luy, s.tile);
                (u.0, e.1 + u.1)
            }
        },
    }
}

/// Offset `o` is one of `offs`.
pub open spec fn has_offset(offs: Seq<IVec2>, bx: int, by: int, x: int, y: int) -> bool {
    exists|k: int| 0 <= k < offs.len() && bx + (#[trigger] offs[k]).x == x && by + offs[k].y == y
}

/// What erasing leaves: the listed cells inside the grid are empty, the rest unchanged.
proof fn lemma_erase_fold_cells(size: UVec2, c: Cells, bx: int, by: int, offs: Seq<IVec2>)
    requires
        c.len() == size.x,
        forall|x: int| 0 <= x < c.len() ==> #[trigger] c[x].len() == size.y,
    ensures
        erase_fold(size, c, bx, by, offs).0.len() == size.x,
        forall|x: int| 0 <= x < size.x ==> #[trigger] erase_fold(size, c, bx, by, offs).0[x].len() == size.y,
        forall|x: int, y: int| in_grid(size, x, y) ==> #[trigger] erase_fold(size, c, bx, by, offs).0[x][y]
            == if has_offset(offs, bx, by, x, y) { Option::None } else { c[x][y] },
    decreases offs.len(),
{
    if offs.len() > 0 {
        let d = offs.drop_last();
        lemma_erase_fold_cells(size, c, bx, by, d);
        let r = erase_fold(size, c, bx, by, offs).0;
        let prev = erase_fold(size, c, bx, by, d).0;
        assert forall|x: int, y: int| in_grid(size, x, y) implies #[trigger] r[x][y]
            == if has_offset(offs, bx, by, x, y) { Option::None } else { c[x][y] } by {
            let o = offs.last();
            if has_offset(d, bx, by, x, y) {
                let k = choose|k: int| 0 <= k < d.len() && bx + (#[trigger] d[k]).x == x && by + d[k].y == y;
                assert(offs[k] == d[k]);
            }
            if has_offset(offs, bx, by, x, y) && !(bx + o.x == x && by + o.y == y) {
                let k = choose|k: int| 0 <= k < offs.len() && bx + (#[trigger] offs[k]).x == x && by + offs[k].y == y;
                assert(k < offs.len() - 1);
                assert(d[k] == offs[k]);
            }
            if bx + o.x == x && by + o.y == y {
                assert(offs[offs.len() - 1] == o);
            }
        }
    }
}

/// Every main cell's offset is among a tile's main offsets.
proof fn lemma_main_offsets_complete(t: TileSpec, cells: Seq<(int, int)>, i: int)
    requires
        0 <= i < cells.len(),
        z_at(t.mask, cells[i].0, cells[i].1) == 0,
    ensures
        main_offsets(t, cells).contains(cell_offset(t, cells[i])),
    decreases cells.len(),
{
    let d = cells.drop_last();
    if i == cells.len() - 1 {
        assert(main_offsets(t, cells) == main_offsets(t, d).push(cell_offset(t, cells[i])));
        assert(main_offsets(t, cells)[main_offsets(t, d).len() as int] == cell_offset(t, cells[i]));
    } else {
        assert(d[i] == cells[i]);
        lemma_main_offsets_complete(t, d, i);
        let k = choose|k: int| 0 <= k < main_offsets(t, d).len() && main_offsets(t, d)[k] == cell_offset(t, d[i]);
        assert(main_offsets(t, cells)[k] == main_offsets(t, d)[k]);
    }
}

/// The offset of a main cell is among the tile's main offsets.
proof fn lemma_main_cell_listed(t: TileSpec, cx: int, cy: int)
    requires
        main_cell(t, cx, cy),
    ensures
        main_offsets(t, t.cells()).contains(cell_offset(t, (cx, cy))),
{
    lemma_tile_cells_index(t.size.x as nat, t.size.y as nat);
    lemma_part_index(t, cx, cy);
    assert(t.cells()[cx * t.size.y + cy] == (cx, cy));
    lemma_main_offsets_complete(t, t.cells(), cx * t.size.y + cy);
}

/// A part's offset is the offset of its own cell.
proof fn lemma_offset_of_rel(s: StoredSpec)
    requires
        main_cell(s.tile, rel_of(s).0, rel_of(s).1),
        s.tile.wf(),
    ensures
        cell_offset(s.tile, rel_of(s)) == s.origin_offset,
{
}


/// Removing a single tile keeps the grid consistent.
pub proof fn lemma_remove_single_keeps_wf(size: UVec2, c: Cells, px: int, py: int)
    requires
        cells_wf(size, c),
        in_grid(size, px, py),
        c[px][py] is Some,
        c[px][py].unwrap().tile.mask is None,
    ensures
        cells_wf(size, set_cell(c, px, py, Option::None)),
{
    let s = c[px][py].unwrap();
    let e = set_cell(c, px, py, Option::None);
    assert forall|x: int| 0 <= x < e.len() implies #[trigger] e[x].len() == size.y by {
        assert(c[x].len() == size.y);
    }
    assert forall|x: int, y: int| in_grid(size, x, y) implies #[trigger] stored_ok(size, e, x, y) by {
        assert(stored_ok(size, c, x, y));
        if !(x == px && y == py) && c[x][y] is Some {
            assert(e[x][y] == c[x][y]);
            let xs = c[x][y].unwrap();
            assert forall|cx: int, cy: int| main_cell(xs.tile, cx, cy) implies #[trigger] sibling_present(size, e, x, y, xs, cx, cy) by {
                assert(sibling_present(size, c, x, y, xs, cx, cy));
                let off = cell_offset(xs.tile, (cx, cy));
                let qx = x - xs.origin_offset.x + off.x;
                let qy = y - xs.origin_offset.y + off.y;
                if in_grid(size, qx, qy) && qx == px && qy == py {
                    assert(xs.tile == s.tile);
                    assert(cx == 0 && cy == 0);
                    lemma_offset_of_rel(xs);
                    assert(rel_of(xs) == (0int, 0int));
                }
            }
        }
    }
}

/// Removing a whole multi-cell tile (all main-layer parts around the base
/// of one of its parts) keeps the grid consistent.
pub proof fn lemma_erase_keeps_wf(size: UVec2, c: Cells, px: int, py: int)
    requires
        cells_wf(size, c),
        in_grid(size, px, py),
        c[px][py] is Some,
    ensures
        ({
            let s = c[px][py].unwrap();
            cells_wf(size, erase_fold(size, c, px - s.origin_offset.x, py - s.origin_offset.y,
                main_offsets(s.tile, s.tile.cells())).0)
        }),
{
    let s = c[px][py].unwrap();
    let bx = px - s.origin_offset.x;
    let by = py - s.origin_offset.y;
    let offs = main_offsets(s.tile, s.tile.cells());
    lemma_erase_fold_cells(size, c, bx, by, offs);
    let e = erase_fold(size, c, bx, by, offs).0;
    assert(stored_ok(size, c, px, py));
    assert forall|x: int, y: int| in_grid(size, x, y) implies #[trigger] stored_ok(size, e, x, y) by {
        assert(stored_ok(size, c, x, y));
        if e[x][y] is Some {
            assert(!has_offset(offs, bx, by, x, y));
            assert(e[x][y] == c[x][y]);
            let xs = c[x][y].unwrap();
            assert forall|cx: int, cy: int| main_cell(xs.tile, cx, cy) implies #[trigger] sibling_present(size, e, x, y, xs, cx, cy) by {
                assert(sibling_present(size, c, x, y, xs, cx, cy));
                let off = cell_offset(xs.tile, (cx, cy));
                let qx = x - xs.origin_offset.x + off.x;
                let qy = y - xs.origin_offset.y + off.y;
                if in_grid(size, qx, qy) && has_offset(offs, bx, by, qx, qy) {
                    let k = choose|k: int| 0 <= k < offs.len() && bx + (#[trigger] offs[k]).x == qx && by + offs[k].y == qy;
                    let w = lemma_main_offset_is_main(s.tile, k);
                    assert(sibling_present(size, c, px, py, s, w.0, w.1));
                    assert(xs.tile == s.tile);
                    assert(off == offs[k]);
                    lemma_offset_of_rel(xs);
                    lemma_main_cell_listed(xs.tile, rel_of(xs).0, rel_of(xs).1);
                    let j = choose|j: int| 0 <= j < offs.len() && offs[j] == cell_offset(xs.tile, rel_of(xs));
                    assert(bx + offs[j].x == x && by + offs[j].y == y);
                    assert(has_offset(offs, bx, by, x, y));
                }
            }
        }
    }
}


impl TileGrid {
    /// Removes what is at `pos` now (see `despawn_spec`).
    fn despawn_tile(&mut self, pos: &UVec2) -> (cmds: Vec<SpriteCommand>)
        requires
            old(self).wf(),
            in_grid(old(self).size_spec(), pos.x as int, pos.y as int),
        ensures
            (final(self).cells(), cmds@) == despawn_spec(old(self).size_spec(), old(self).cells(), *pos),
            final(self).wf(),
            final(self).size_spec() == old(self).size_spec(),
            final(self).pending() == old(self).pending(),
            final(self).next_entity_spec() == old(self).next_entity_spec(),
    {
        let ghost size = self.size;
        let ghost c0 = self.cells();
        proof { self.lemma_cell_view(pos.x as int, pos.y as int); }
        let taken = match &self.tiles[pos.x as usize][pos.y as usize] {
            Some(s) => Some(copy_stored(s)),
            None => None,
        };
        match taken {
            None => Vec::new(),
            Some(s) => {
                proof { assert(stored_ok(size, c0, pos.x as int, pos.y as int)); }
                if !s.tile_data.is_multitile() {
                    proof { lemma_remove_single_keeps_wf(size, c0, pos.x as int, pos.y as int); }
                    self.store(pos.x as usize, pos.y as usize, None);
                    let mut cmds: Vec<SpriteCommand> = Vec::new();
                    cmds.push(SpriteCommand::Despawn { entity: s.entity });
                    let mut more = self.update_neighbor_tiles(pos.x as i32, pos.y as i32, &s.tile_data);
                    proof { assert(cmds@ =~= seq![SpriteCommand::Despawn { entity: s.entity }]); }
                    cmds.append(&mut more);
                    cmds
                } else {
                    let ghost sv = s@;
                    let offs = s.tile_data.iter_offsets_masked();
                    let bx = pos.x as i32 - s.origin_offset.x;
                    let by = pos.y as i32 - s.origin_offset.y;
                    let mut cmds: Vec<SpriteCommand> = Vec::new();
                    let mut j: usize = 0;
                    proof {
                        lemma_erase_keeps_wf(size, c0, pos.x as int, pos.y as int);
                        lemma_erase_fold_cells(size, c0, bx as int, by as int, offs@);
                    }
                    while j < offs.len()
                        invariant
                            sv == s@, grid_tile(sv.tile),
                            offs@ == main_offsets(sv.tile, sv.tile.cells()),
                            size == self.size_spec(), size.x <= MAX_GRID_SIZE, size.y <= MAX_GRID_SIZE,
                            c0.len() == size.x, forall|x: int| 0 <= x < c0.len() ==> #[trigger] c0[x].len() == size.y,
                            bx == pos.x - sv.origin_offset.x, by == pos.y - sv.origin_offset.y,
                            -2 * (MAX_TILE_EXTENT as int) <= bx <= MAX_GRID_SIZE + 2 * (MAX_TILE_EXTENT as int),
                            -2 * (MAX_TILE_EXTENT as int) <= by <= MAX_GRID_SIZE + 2 * (MAX_TILE_EXTENT as int),
                            self.pending() == old(self).pending(),
                            self.next_entity_spec() == old(self).next_entity_spec(),
                            j <= offs.len(),
                            self.cells() == erase_fold(size, c0, bx as int, by as int, offs@.take(j as int)).0,
                            cmds@ == erase_fold(size, c0, bx as int, by as int, offs@.take(j as int)).1,
                        decreases offs.len() - j,
                    {
                        let ghost w = lemma_main_offset_is_main(sv.tile, j as int);
                        proof {
                            assert(offs@.take(j + 1).drop_last() =~= offs@.take(j as int));
                            lemma_erase_fold_cells(size, c0, bx as int, by as int, offs@.take(j as int));
                        }
                        let o = offs[j];
                        let qx = bx + o.x;
                        let qy = by + o.y;
                        if self.in_bounds_i(&ivec2(qx, qy)) {
                            proof { self.lemma_cell_view(qx as int, qy as int); }
                            let found = match &self.tiles[qx as usize][qy as usize] {
                                Some(x) => Some((copy_ids(&x.overlay_tiles), x.entity)),
                                None => None,
                            };
                            match found {
                                Some((ovs, e)) => {
                                    let ghost before = cmds@;
                                    let mut k: usize = 0;
                                    while k < ovs.len()
                                        invariant
                                            k <= ovs.len(),
                                            cmds@ == before + despawn_cmds(ovs@.take(k as int)),
                                        decreases ovs.len() - k,
                                    {
                                        cmds.push(SpriteCommand::Despawn { entity: ovs[k] });
                                        k = k + 1;
                                        assert(cmds@ =~= before + despawn_cmds(ovs@.take(k as int)));
                                    }
                                    assert(ovs@.take(ovs.len() as int) =~= ovs@);
                                    cmds.push(SpriteCommand::Despawn { entity: e });
                                    self.store(qx as usize, qy as usize, None);
                                    proof {
                                        assert(cmds@ =~= before + despawn_cmds(ovs@) + seq![SpriteCommand::Despawn { entity: e }]);
                                    }
                                },
                                None => {},
                            }
                        }
                        j = j + 1;
                    }
                    assert(offs@.take(offs.len() as int) =~= offs@);
                    let lux = s.origin_offset.x - s.tile_data.origin_offset.x as i32;
                    let luy = s.origin_offset.y - s.tile_data.origin_offset.y as i32;
                    let mut more = self.update_neighbor_tiles(pos.x as i32 - lux, pos.y as i32 - luy, &s.tile_data);
                    cmds.append(&mut more);
                    cmds
                }
            },
        }
    }
}


/// Applying one queued change (with the variant sampled for it): outside the
/// grid nothing happens; otherwise the tile is placed or the cell cleared.
pub open spec fn step_spec(size: UVec2, c: Cells, next: int, a: (UVec2, Option<TileSpec>), sampled: int)
    -> (Cells, Seq<SpriteCommand>, int) {
    if !in_grid(size, a.0.x as int, a.0.y as int) {
        (c, Seq::empty(), next)
    } else {
        match a.1 {
            Option::Some(t) => set_tile_spec(size, c, next, a.0, t, sampled),
            Option::None => {
                let d = despawn_spec(size, c, a.0);
                (d.0, d.1, next)
            },
        }
    }
}

/// One queued change can be applied: a tile to place has a shape the grid can
/// check, has neighbour offsets where it fits, does not make placing panic nor
/// store parts over other tiles, the sampled variant is one of its variants, and
/// the sprite ids it needs are left.
pub open spec fn step_ok(size: UVec2, c: Cells, next: int, a: (UVec2, Option<TileSpec>), sampled: int) -> bool {
    in_grid(size, a.0.x as int, a.0.y as int) ==> match a.1 {
        Option::None => true,
        Option::Some(t) => {
            &&& placeable_shape(t)
            &&& (can_be_placed_spec(size, c, a.0, t) ==> t.reaction.has_offsets())
            &&& !set_tile_panics(size, c, a.0, t)
            &&& !placement_overwrites(size, c, a.0, t)
            &&& (t.variant_count > 1 ==> 0 <= sampled < t.variant_count)
            &&& next + t.size.x * t.size.y <= u64::MAX
        },
    }
}

/// The queued change at the head will sample a variant: it places a tile that
/// fits, on an empty cell, and lists several variants.
pub open spec fn step_samples(size: UVec2, c: Cells, a: (UVec2, Option<TileSpec>)) -> bool {
    &&& in_grid(size, a.0.x as int, a.0.y as int)
    &&& a.1 is Some
    &&& can_be_placed_spec(size, c, a.0, a.1.unwrap())
    &&& a.1.unwrap().variant_count > 1
}

/// Applying the queued changes in order, with `variants[i]` sampled for the `i`-th.
pub open spec fn queue_spec(size: UVec2, c: Cells, next: int, q: Seq<(UVec2, Option<TileSpec>)>, variants: Seq<usize>)
    -> (Cells, Seq<SpriteCommand>, int)
    decreases q.len(),
{
    if q.len() == 0 {
        (c, Seq::empty(), next)
    } else {
        let prev = queue_spec(size, c, next, q.drop_last(), variants.drop_last());
        let r = step_spec(size, prev.0, prev.2, q.last(), variants.last() as int);
        (r.0, prev.1 + r.1, r.2)
    }
}

/// Every queued change can be applied in turn.
pub open spec fn queue_ok(size: UVec2, c: Cells, next: int, q: Seq<(UVec2, Option<TileSpec>)>, variants: Seq<usize>) -> bool
    decreases q.len(),
{
    if q.len() == 0 {
        true
    } else {
        let prev = queue_spec(size, c, next, q.drop_last(), variants.drop_last());
        queue_ok(size, c, next, q.drop_last(), variants.drop_last())
            && step_ok(size, prev.0, prev.2, q.last(), variants.last() as int)
    }
}

impl TileGrid {
    /// Whether changes are queued.
    pub fn has_pending(&self) -> (r: bool)
        ensures
            r == (self.pending().len() > 0),
    {
        self.to_update.len() > 0
    }

    /// Whether the next queued change cannot be applied with variant `sampled`
    /// (see `step_ok`): the grid would not hold the tile, placing it panics or
    /// would store parts over another tile, the variant is not one of its
    /// variants, or no sprite ids are left for it.
    pub fn next_would_panic(&self, sampled: usize) -> (r: bool)
        requires
            self.wf(),
            self.pending().len() > 0,
        ensures
            r == !step_ok(self.size_spec(), self.cells(), self.next_entity_spec() as int, self.pending()[0], sampled as int),
    {
        let (pos, action) = &self.to_update[0];
        assert(self.pending()[0] == (*pos, action_view(action)));
        if !self.in_bounds(pos) {
            return false;
        }
        match action {
            TileAction::Remove => false,
            TileAction::Add { tile_data } => {
                if !tile_data.check_wf() {
                    return true;
                }
                if self.placement_would_overflow(pos, tile_data) {
                    return true;
                }
                if self.can_be_placed(pos, tile_data) {
                    if !tile_data.neighbor_reaction.is_listed() {
                        return true;
                    }
                    proof { self.lemma_cell_view(pos.x as int, pos.y as int); }
                    match &self.tiles[pos.x as usize][pos.y as usize] {
                        Some(stored) => {
                            if !stored.tile_data.same_as(tile_data) {
                                return true;
                            }
                        },
                        None => {
                            if !self.main_cells_free(pos, tile_data) {
                                return true;
                            }
                        },
                    }
                }
                if tile_data.variant_count > 1 && sampled >= tile_data.variant_count {
                    return true;
                }
                let sx = tile_data.size.x as u64;
                let sy = tile_data.size.y as u64;
                assert(sx * sy <= 0xFFFF_FFFFu64 * 0xFFFF_FFFFu64) by (nonlinear_arith)
                    requires sx <= 0xFFFF_FFFFu64, sy <= 0xFFFF_FFFFu64;
                let cells = sx * sy;
                self.next_entity.checked_add(cells).is_none()
            },
        }
    }

    /// The atlas layout key of the tile whose variant the next queued change
    /// samples, if it samples one.
    pub fn next_variant_request(&self) -> (r: Option<u64>)
        requires
            self.wf(),
            self.pending().len() > 0,
            step_ok(self.size_spec(), self.cells(), self.next_entity_spec() as int, self.pending()[0], 0),
        ensures
            r is Some == step_samples(self.size_spec(), self.cells(), self.pending()[0]),
            r matches Option::Some(k) ==> k == self.pending()[0].1.unwrap().atlas_layout,
    {
        let (pos, action) = &self.to_update[0];
        assert(self.pending()[0] == (*pos, action_view(action)));
        if !self.in_bounds(pos) {
            return None;
        }
        match action {
            TileAction::Remove => None,
            TileAction::Add { tile_data } => {
                if self.can_be_placed(pos, tile_data) && tile_data.variant_count > 1 {
                    Some(tile_data.atlas_layout)
                } else {
                    None
                }
            },
        }
    }

    /// Whether the placement check for `tile` at `pos` would wrap a coordinate.
    fn placement_would_overflow(&self, pos: &UVec2, tile: &TileData) -> (r: bool)
        requires
            self.wf(),
            in_grid(self.size_spec(), pos.x as int, pos.y as int),
            tile@.wf(),
        ensures
            r == placement_overflows(self.size_spec(), *pos, tile@),
    {
        if !tile.is_multitile() {
            return false;
        }
        let ax = pos.x as i32 - tile.origin_offset.x as i32;
        let ay = pos.y as i32 + tile.origin_offset.y as i32;
        let rect = tile.get_main_layer_rect();
        let c0 = ivec2(ax + rect.0.x as i32, ay - rect.0.y as i32);
        let c1 = ivec2(ax + rect.1.x as i32, ay - rect.1.y as i32);
        self.in_bounds_i(&c0) && self.in_bounds_i(&c1) && ax < 0
    }
}

impl TileNeighborReaction {
    /// Whether the reaction's neighbour offsets are listed.
    pub fn is_listed(&self) -> (r: bool)
        ensures
            r == self.has_offsets(),
    {
        match self {
            TileNeighborReaction::NoReaction => true,
            TileNeighborReaction::Auto4 => true,
            _ => false,
        }
    }
}

/// Part `s` showing frame `f`.
pub open spec fn with_frame(s: StoredSpec, f: int) -> StoredSpec {
    StoredSpec { frame: f as usize, ..s }
}

/// The commands redrawing part `s` with its stored state, variant and frame: its
/// overlay sprites first when it is its tile's origin, then its own sprite.
pub open spec fn part_anim_cmds(s: StoredSpec) -> Seq<SpriteCommand> {
    let st = s.neighborstate as int;
    let ov = if s.origin_offset == zero_vec() { overlay_cmds(s, st) } else { Seq::empty() };
    ov.push(index_cmd(s, st, s.variant as int, s.frame as int))
}

/// Redrawing the parts of one column, top to bottom.
pub open spec fn column_anim_cmds(col: Seq<Option<StoredSpec>>) -> Seq<SpriteCommand>
    decreases col.len(),
{
    if col.len() == 0 {
        Seq::empty()
    } else {
        column_anim_cmds(col.drop_last()) + match col.last() {
            Option::Some(s) => part_anim_cmds(s),
            Option::None => Seq::empty(),
        }
    }
}

/// Redrawing every stored part, column by column.
pub open spec fn anim_cmds(c: Cells) -> Seq<SpriteCommand>
    decreases c.len(),
{
    if c.len() == 0 {
        Seq::empty()
    } else {
        anim_cmds(c.drop_last()) + column_anim_cmds(c.last())
    }
}

/// `b` holds the parts of `a`, each showing a frame its tile draws.
pub open spec fn same_but_frames(a: Cells, b: Cells) -> bool {
    &&& a.len() == b.len()
    &&& forall|x: int| 0 <= x < a.len() ==> #[trigger] a[x].len() == b[x].len()
    &&& forall|x: int, y: int| 0 <= x < a.len() && 0 <= y < a[x].len() ==> {
        &&& (#[trigger] b[x][y]) is Some == a[x][y] is Some
        &&& b[x][y] is Some ==> {
            &&& b[x][y].unwrap() == with_frame(a[x][y].unwrap(), b[x][y].unwrap().frame as int)
            &&& b[x][y].unwrap().frame < frames_drawn(a[x][y].unwrap().tile)
        }
    }
}

/// Frame `f` is one that `frame_of` gives for a tile of kind `t`.
pub open spec fn frame_given<F: Fn(&TileData) -> usize>(frame_of: F, t: TileSpec, f: usize) -> bool {
    exists|td: TileData| td@ == t && #[trigger] frame_of.ensures((&td,), f)
}

/// Moving the parts of a consistent grid to other drawn frames keeps it consistent.
pub proof fn lemma_frames_keep_wf(size: UVec2, a: Cells, b: Cells)
    requires
        cells_wf(size, a),
        same_but_frames(a, b),
    ensures
        cells_wf(size, b),
{
    assert forall|x: int| 0 <= x < b.len() implies #[trigger] b[x].len() == size.y by {
        assert(a[x].len() == b[x].len());
    }
    assert forall|x: int, y: int| in_grid(size, x, y) implies #[trigger] stored_ok(size, b, x, y) by {
        assert(stored_ok(size, a, x, y));
        assert(b[x][y] is Some == a[x][y] is Some);
        if b[x][y] is Some {
            let sa = a[x][y].unwrap();
            let sb = b[x][y].unwrap();
            assert(sb == with_frame(sa, sb.frame as int));
            assert forall|cx: int, cy: int| main_cell(sb.tile, cx, cy) implies #[trigger] sibling_present(size, b, x, y, sb, cx, cy) by {
                assert(sibling_present(size, a, x, y, sa, cx, cy));
                let off = cell_offset(sa.tile, (cx, cy));
                let qx = x - sa.origin_offset.x + off.x;
                let qy = y - sa.origin_offset.y + off.y;
                if in_grid(size, qx, qy) {
                    assert(a[qx][qy] is Some == b[qx][qy] is Some);
                    assert(b[qx][qy].unwrap() == with_frame(a[qx][qy].unwrap(), b[qx][qy].unwrap().frame as int));
                }
            }
        }
    }
}

impl TileGrid {
    /// Sets the frame of the part at (x, y), if any.
    fn set_frame(&mut self, x: usize, y: usize, f: usize)
        requires
            x < old(self).cells().len(),
            y < old(self).cells()[x as int].len(),
        ensures
            final(self).cells() == match old(self).cells()[x as int][y as int] {
                Option::Some(s) => set_cell(old(self).cells(), x as int, y as int, Option::Some(with_frame(s, f as int))),
                Option::None => old(self).cells(),
            },
            final(self).size_spec() == old(self).size_spec(),
            final(self).pending() == old(self).pending(),
            final(self).next_entity_spec() == old(self).next_entity_spec(),
    {
        proof { self.lemma_cell_view(x as int, y as int); }
        match &mut self.tiles[x][y] {
            Some(t) => {
                t.frame = f;
            },
            None => {},
        }
        proof {
            let c = old(self).cells();
            let goal = match c[x as int][y as int] {
                Option::Some(s) => set_cell(c, x as int, y as int, Option::Some(with_frame(s, f as int))),
                Option::None => c,
            };
            assert forall|i: int| 0 <= i < self.cells().len() implies #[trigger] self.cells()[i] =~= goal[i] by {
                if i == x {
                    assert forall|j: int| 0 <= j < self.cells()[i].len() implies self.cells()[i][j] == goal[i][j] by {
                        if j == y {
                            self.lemma_cell_view(i, j);
                        }
                    }
                }
            }
            assert(self.cells() =~= goal);
        }
    }

    /// The commands showing the overlay sprites of `tile` for state `st`.
    fn overlay_commands(tile: &StoredTile, st: usize) -> (cmds: Vec<SpriteCommand>)
        requires
            grid_tile(tile.tile_data@),
            tile.variant < variants_drawn(tile.tile_data@),
            tile.frame < frames_drawn(tile.tile_data@),
        ensures
            cmds@ == overlay_cmds(tile@, st as int),
    {
        let ghost s = tile@;
        let ghost t = tile.tile_data@;
        let variant = tile.variant;
        let frame = tile.frame;
        let mut cmds: Vec<SpriteCommand> = Vec::new();
        proof { crate::tiles::lemma_wf_indices_fit(t, st as int, variant as int, frame as int); }
        let idxs = tile.tile_data.iter_tile_atlas_idxs_for_overlay(st, variant, frame);
        let mut i: usize = 0;
        while i < idxs.len()
            invariant
                s == tile@, t == tile.tile_data@,
                idxs@ == overlay_indices(t, t.cells(), st as int, variant as int, frame as int),
                variant == s.variant, frame == s.frame,
                i <= idxs.len(),
                cmds@ == overlay_cmds_upto(s, st as int, i as int),
            decreases idxs.len() - i,
        {
            if i < tile.overlay_tiles.len() {
                cmds.push(SpriteCommand::SetIndex {
                    entity: tile.overlay_tiles[i],
                    atlas_layout: tile.tile_data.atlas_layout,
                    index: idxs[i],
                });
            }
            i = i + 1;
            assert(cmds@ =~= overlay_cmds_upto(s, st as int, i as int));
        }
        assert(cmds@ =~= overlay_cmds(s, st as int));
        cmds
    }

    /// The commands redrawing the part `tile` (see `part_anim_cmds`).
    fn part_commands(tile: &StoredTile) -> (cmds: Vec<SpriteCommand>)
        requires
            grid_tile(tile.tile_data@),
            main_cell(tile.tile_data@, rel_of(tile@).0, rel_of(tile@).1),
            tile.variant < variants_drawn(tile.tile_data@),
            tile.frame < frames_drawn(tile.tile_data@),
        ensures
            cmds@ == part_anim_cmds(tile@),
    {
        let st = tile.neighborstate;
        let mut cmds = if tile.origin_offset == ivec2(0, 0) {
            Self::overlay_commands(tile, st)
        } else {
            Vec::new()
        };
        let last = Self::index_command(tile, st, tile.variant, tile.frame);
        cmds.push(last);
        cmds
    }

    /// Moves every stored part to the frame `frame_of` gives for its tile kind and
    /// redraws it, column by column (see `anim_cmds`).
    pub fn update_animations<F: Fn(&TileData) -> usize>(&mut self, frame_of: F) -> (cmds: Vec<SpriteCommand>)
        requires
            old(self).wf(),
            forall|td: &TileData| #[trigger] frame_of.requires((td,)),
            forall|td: &TileData, f: usize| #[trigger] frame_of.ensures((td,), f) ==> f < frames_drawn(td@),
        ensures
            same_but_frames(old(self).cells(), final(self).cells()),
            forall|x: int, y: int| in_grid(old(self).size_spec(), x, y) && (#[trigger] final(self).cells()[x][y]) is Some
                ==> frame_given(frame_of, final(self).cells()[x][y].unwrap().tile, final(self).cells()[x][y].unwrap().frame),
            cmds@ == anim_cmds(final(self).cells()),
            final(self).wf(),
            final(self).size_spec() == old(self).size_spec(),
            final(self).pending() == old(self).pending(),
            final(self).next_entity_spec() == old(self).next_entity_spec(),
    {
        let ghost c0 = self.cells();
        let ghost size = self.size;
        let mut cmds: Vec<SpriteCommand> = Vec::new();
        proof {
            assert(c0.take(0) =~= Seq::<Seq<Option<StoredSpec>>>::empty());
            assert forall|i: int, j: int| 0 <= i < c0.len() && 0 <= j < c0[i].len() implies {
                &&& (#[trigger] c0[i][j]) is Some == c0[i][j] is Some
                &&& c0[i][j] is Some ==> {
                    &&& c0[i][j].unwrap() == with_frame(c0[i][j].unwrap(), c0[i][j].unwrap().frame as int)
                    &&& c0[i][j].unwrap().frame < frames_drawn(c0[i][j].unwrap().tile)
                }
            } by {
                assert(in_grid(size, i, j));
                assert(stored_ok(size, c0, i, j));
            }
        }
        let mut x: usize = 0;
        while x < self.tiles.len()
            invariant
                cells_wf(size, c0),
                size == self.size_spec(),
                self.pending() == old(self).pending(),
                self.next_entity_spec() == old(self).next_entity_spec(),
                self.cells().len() == c0.len(),
                self.tiles@.len() == c0.len(),
                forall|td: &TileData| #[trigger] frame_of.requires((td,)),
                forall|td: &TileData, f: usize| #[trigger] frame_of.ensures((td,), f) ==> f < frames_drawn(td@),
                x <= c0.len(),
                same_but_frames(c0, self.cells()),
                forall|i: int, j: int| 0 <= i < x && 0 <= j < c0[i].len() && (#[trigger] self.cells()[i][j]) is Some
                    ==> frame_given(frame_of, self.cells()[i][j].unwrap().tile, self.cells()[i][j].unwrap().frame),
                forall|i: int, j: int| x <= i < c0.len() && 0 <= j < c0[i].len() ==> #[trigger] self.cells()[i][j] == c0[i][j],
                cmds@ == anim_cmds(self.cells().take(x as int)),
            decreases c0.len() - x,
        {
            assert(self.cells()[x as int].len() == self.tiles@[x as int]@.len());
            let ghost start = self.cells();
            let ghost before = cmds@;
            proof {
                assert(self.cells()[x as int].take(0) =~= Seq::<Option<StoredSpec>>::empty());
            }
            let mut y: usize = 0;
            while y < self.tiles[x].len()
                invariant
                    cells_wf(size, c0),
                    size == self.size_spec(),
                    self.pending() == old(self).pending(),
                    self.next_entity_spec() == old(self).next_entity_spec(),
                    self.cells().len() == c0.len(),
                    self.tiles@.len() == c0.len(),
                    self.tiles@[x as int]@.len() == c0[x as int].len(),
                    forall|td: &TileData| #[trigger] frame_of.requires((td,)),
                    forall|td: &TileData, f: usize| #[trigger] frame_of.ensures((td,), f) ==> f < frames_drawn(td@),
                    x < c0.len(),
                    y <= c0[x as int].len(),
                    same_but_frames(c0, self.cells()),
                    forall|i: int, j: int| 0 <= i < c0.len() && 0 <= j < c0[i].len() && (i < x || (i == x && j < y))
                        && (#[trigger] self.cells()[i][j]) is Some
                        ==> frame_given(frame_of, self.cells()[i][j].unwrap().tile, self.cells()[i][j].unwrap().frame),
                    forall|i: int, j: int| 0 <= i < c0.len() && 0 <= j < c0[i].len() && (i > x || (i == x && j >= y))
                        ==> #[trigger] self.cells()[i][j] == c0[i][j],
                    self.cells().take(x as int) == start.take(x as int),
                    before == anim_cmds(start.take(x as int)),
                    cmds@ == before + column_anim_cmds(self.cells()[x as int].take(y as int)),
                decreases c0[x as int].len() - y,
            {
                proof { self.lemma_cell_view(x as int, y as int); }
                let found = match &self.tiles[x][y] {
                    Some(s) => {
                        let f = frame_of(&s.tile_data);
                        proof {
                            assert(frame_of.ensures((&s.tile_data,), f));
                            assert(frame_given(frame_of, s.tile_data@, f));
                        }
                        Some(f)
                    },
                    None => None,
                };
                let ghost cb = self.cells();
                match found {
                    Some(f) => {
                        self.set_frame(x, y, f);
                        proof {
                            self.lemma_cell_view(x as int, y as int);
                            assert(stored_ok(size, c0, x as int, y as int));
                            assert forall|i: int| 0 <= i < c0.len() implies #[trigger] c0[i].len() == self.cells()[i].len() by {
                                assert(c0[i].len() == cb[i].len());
                            }
                            assert forall|i: int, j: int| 0 <= i < c0.len() && 0 <= j < c0[i].len() implies {
                                &&& (#[trigger] self.cells()[i][j]) is Some == c0[i][j] is Some
                                &&& self.cells()[i][j] is Some ==> {
                                    &&& self.cells()[i][j].unwrap() == with_frame(c0[i][j].unwrap(), self.cells()[i][j].unwrap().frame as int)
                                    &&& self.cells()[i][j].unwrap().frame < frames_drawn(c0[i][j].unwrap().tile)
                                }
                            } by {
                                assert(cb[i][j] is Some == c0[i][j] is Some);
                            }
                            assert(self.cells().take(x as int) =~= start.take(x as int));
                        }
                        let part = match &self.tiles[x][y] {
                            Some(s) => Self::part_commands(s),
                            None => Vec::new(),
                        };
                        let mut part = part;
                        cmds.append(&mut part);
                    },
                    None => {},
                }
                y = y + 1;
                proof {
                    assert(self.cells()[x as int].take(y as int).drop_last() =~= self.cells()[x as int].take(y - 1));
                    assert(self.cells()[x as int].take(y - 1) =~= cb[x as int].take(y - 1));
                    assert(cmds@ =~= before + column_anim_cmds(self.cells()[x as int].take(y as int)));
                }
            }
            proof {
                assert(self.cells()[x as int].take(y as int) =~= self.cells()[x as int]);
                assert(self.cells().take(x + 1).drop_last() =~= self.cells().take(x as int));
                assert(self.cells().take(x + 1).last() == self.cells()[x as int]);
            }
            x = x + 1;
        }
        proof {
            assert(self.cells().take(x as int) =~= self.cells());
            lemma_frames_keep_wf(size, c0, self.cells());
        }
        cmds
    }
}


/// A queue on which every change can be applied can be cut after any change.
proof fn lemma_queue_ok_prefix(size: UVec2, c: Cells, next: int, q: Seq<(UVec2, Option<TileSpec>)>, v: Seq<usize>, k: int)
    requires
        queue_ok(size, c, next, q, v),
        q.len() == v.len(),
        0 <= k <= q.len(),
    ensures
        queue_ok(size, c, next, q.take(k), v.take(k)),
    decreases q.len(),
{
    if k == q.len() {
        assert(q.take(k) =~= q);
        assert(v.take(k) =~= v);
    } else {
        lemma_queue_ok_prefix(size, c, next, q.drop_last(), v.drop_last(), k);
        assert(q.drop_last().take(k) =~= q.take(k));
        assert(v.drop_last().take(k) =~= v.take(k));
    }
}

impl TileGrid {
    /// Applies one change with `sampled` as the variant drawn for it (see `step_spec`).
    fn apply(&mut self, pos: &UVec2, action: &TileAction, sampled: usize) -> (cmds: Vec<SpriteCommand>)
        requires
            old(self).wf(),
            step_ok(old(self).size_spec(), old(self).cells(), old(self).next_entity_spec() as int,
                (*pos, action_view(action)), sampled as int),
        ensures
            ({
                let r = step_spec(old(self).size_spec(), old(self).cells(), old(self).next_entity_spec() as int,
                    (*pos, action_view(action)), sampled as int);
                &&& final(self).cells() == r.0
                &&& cmds@ == r.1
                &&& final(self).next_entity_spec() == r.2
            }),
            final(self).wf(),
            final(self).size_spec() == old(self).size_spec(),
            final(self).pending() == old(self).pending(),
    {
        if !self.in_bounds(pos) {
            return Vec::new();
        }
        match action {
            TileAction::Add { tile_data } => self.set_tile(pos, tile_data, sampled),
            TileAction::Remove => self.despawn_tile(pos),
        }
    }

    /// Applies the change at the head of the queue, with `sampled` as the variant
    /// drawn for it, and drops it from the queue.
    pub fn process_next(&mut self, sampled: usize) -> (cmds: Vec<SpriteCommand>)
        requires
            old(self).wf(),
            old(self).pending().len() > 0,
            step_ok(old(self).size_spec(), old(self).cells(), old(self).next_entity_spec() as int,
                old(self).pending()[0], sampled as int),
        ensures
            ({
                let r = step_spec(old(self).size_spec(), old(self).cells(), old(self).next_entity_spec() as int,
                    old(self).pending()[0], sampled as int);
                &&& final(self).cells() == r.0
                &&& cmds@ == r.1
                &&& final(self).next_entity_spec() == r.2
            }),
            final(self).pending() == old(self).pending().drop_first(),
            final(self).wf(),
            final(self).size_spec() == old(self).size_spec(),
    {
        let (pos, action) = self.to_update.remove(0);
        proof {
            assert(self.pending() =~= old(self).pending().drop_first());
        }
        self.apply(&pos, &action, sampled)
    }

    /// Applies every queued change in order, `variants[i]` being the variant drawn
    /// for the `i`-th, empties the queue, then moves every part to the frame
    /// `frame_of` gives for its kind and redraws it.
    pub fn update<F: Fn(&TileData) -> usize>(&mut self, variants: &Vec<usize>, frame_of: F) -> (cmds: Vec<SpriteCommand>)
        requires
            old(self).wf(),
            variants.len() == old(self).pending().len(),
            queue_ok(old(self).size_spec(), old(self).cells(), old(self).next_entity_spec() as int,
                old(self).pending(), variants@),
            forall|td: &TileData| #[trigger] frame_of.requires((td,)),
            forall|td: &TileData, f: usize| #[trigger] frame_of.ensures((td,), f) ==> f < frames_drawn(td@),
        ensures
            ({
                let q = queue_spec(old(self).size_spec(), old(self).cells(), old(self).next_entity_spec() as int,
                    old(self).pending(), variants@);
                &&& same_but_frames(q.0, final(self).cells())
                &&& cmds@ == q.1 + anim_cmds(final(self).cells())
                &&& final(self).next_entity_spec() == q.2
            }),
            forall|x: int, y: int| in_grid(old(self).size_spec(), x, y) && (#[trigger] final(self).cells()[x][y]) is Some
                ==> frame_given(frame_of, final(self).cells()[x][y].unwrap().tile, final(self).cells()[x][y].unwrap().frame),
            final(self).pending().len() == 0,
            final(self).wf(),
            final(self).size_spec() == old(self).size_spec(),
    {
        let ghost size = self.size;
        let ghost c0 = self.cells();
        let ghost n0 = self.next_entity as int;
        let ghost q = self.pending();
        let mut queue: Vec<(UVec2, TileAction)> = Vec::new();
        std::mem::swap(&mut queue, &mut self.to_update);
        proof {
            assert(self.pending() =~= Seq::<(UVec2, Option<TileSpec>)>::empty());
            assert(q.take(0) =~= Seq::<(UVec2, Option<TileSpec>)>::empty());
            assert(variants@.take(0) =~= Seq::<usize>::empty());
        }
        let mut cmds: Vec<SpriteCommand> = Vec::new();
        let mut k: usize = 0;
        while k < queue.len()
            invariant
                q == queue@.map_values(|a: (UVec2, TileAction)| (a.0, action_view(&a.1))),
                variants.len() == queue.len(),
                queue_ok(size, c0, n0, q, variants@),
                k <= queue.len(),
                self.wf(),
                self.size_spec() == size,
                self.pending().len() == 0,
                ({
                    let r = queue_spec(size, c0, n0, q.take(k as int), variants@.take(k as int));
                    &&& self.cells() == r.0
                    &&& cmds@ == r.1
                    &&& self.next_entity_spec() == r.2
                }),
            decreases queue.len() - k,
        {
            proof {
                lemma_queue_ok_prefix(size, c0, n0, q, variants@, k + 1);
                assert(q.take(k + 1).drop_last() =~= q.take(k as int));
                assert(variants@.take(k + 1).drop_last() =~= variants@.take(k as int));
                assert(q[k as int] == (queue@[k as int].0, action_view(&queue@[k as int].1)));
            }
            let (pos, action) = &queue[k];
            let mut more = self.apply(pos, action, variants[k]);
            cmds.append(&mut more);
            k = k + 1;
        }
        proof {
            assert(q.take(k as int) =~= q);
            assert(variants@.take(k as int) =~= variants@);
        }
        let mut anim = self.update_animations(frame_of);
        cmds.append(&mut anim);
        cmds
    }
}


/// Side of the texture drawn under every grid cell, in pixels.
pub const CELL_TEXTURE_SIDE: usize = 16;

/// Pixel (x, y) of the cell texture is one of the marks at its corners: within
/// 3 pixels of a corner along the texture's edges.
pub open spec fn corner_mark(x: int, y: int) -> bool {
    let s = CELL_TEXTURE_SIDE as int;
    ||| (y == 0 || y == s - 1) && (x < 3 || x >= s - 3)
    ||| (x == 0 || x == s - 1) && (y < 3 || y >= s - 3)
}

/// Byte `k` of the cell texture (RGBA, row by row): the marks are black at half
/// opacity, everything else is clear.
pub open spec fn cell_texture_byte(k: int) -> u8 {
    let p = k / 4;
    let s = CELL_TEXTURE_SIDE as int;
    if corner_mark(p % s, p / s) && k % 4 == 3 { 128 } else { 0 }
}

/// The RGBA texture drawn under every grid cell: clear, with short dark marks at
/// its four corners.
pub fn grid_cell_texture() -> (r: Vec<u8>)
    ensures
        r@.len() == CELL_TEXTURE_SIDE * CELL_TEXTURE_SIDE * 4,
        forall|k: int| 0 <= k < r@.len() ==> #[trigger] r@[k] == cell_texture_byte(k),
{
    let side = CELL_TEXTURE_SIDE;
    let mut r: Vec<u8> = Vec::new();
    let mut y: usize = 0;
    while y < side
        invariant
            side == CELL_TEXTURE_SIDE,
            y <= side,
            r@.len() == y * side * 4,
            forall|k: int| 0 <= k < r@.len() ==> #[trigger] r@[k] == cell_texture_byte(k),
        decreases side - y,
    {
        let mut x: usize = 0;
        while x < side
            invariant
                side == CELL_TEXTURE_SIDE,
                y < side,
                x <= side,
                r@.len() == (y * side + x) * 4,
                forall|k: int| 0 <= k < r@.len() ==> #[trigger] r@[k] == cell_texture_byte(k),
            decreases side - x,
        {
            let mark = ((y == 0 || y == side - 1) && (x < 3 || x >= side - 3))
                || ((x == 0 || x == side - 1) && (y < 3 || y >= side - 3));
            let base = (y * side + x) * 4;
            let ghost before = r@;
            r.push(0);
            r.push(0);
            r.push(0);
            r.push(if mark { 128 } else { 0 });
            proof {
                let p = y * side + x;
                assert(p % (side as int) == x && p / (side as int) == y) by (nonlinear_arith)
                    requires side == 16, x < side, y < side, p == y * side + x;
                assert forall|k: int| 0 <= k < r@.len() implies #[trigger] r@[k] == cell_texture_byte(k) by {
                    if k >= base {
                        assert(k / 4 == p);
                        assert(k % 4 == k - base);
                    } else {
                        assert(r@[k] == before[k]);
                    }
                }
            }
            x = x + 1;
        }
        y = y + 1;
    }
    r
}

} // verus!
