//! Tile kinds: how a tile reacts to its neighbours, how its cells are laid out
//! (single or multi-cell with a depth mask) and where each of its sprites lies
//! in its texture atlas.
use vstd::prelude::*;
use crate::geom::{IVec2, UVec2, ivec2, uvec2};

verus! {

/// How a tile picks its sprite from the tiles around it.
#[derive(Clone, Copy, PartialEq, Eq, Debug, Structural)]
pub enum TileNeighborReaction {
    NoReaction,
    Auto4,
    Auto4Corners,
    RevAuto4,
}

/// The atlas cell index that the `Auto4` layout gives a neighbour state below 16.
pub open spec fn auto4_index(id: int) -> int {
    if id == 0 { 12 } else if id == 1 { 8 } else if id == 2 { 13 } else if id == 3 { 9 }
    else if id == 4 { 0 } else if id == 5 { 4 } else if id == 6 { 1 } else if id == 7 { 5 }
    else if id == 8 { 15 } else if id == 9 { 11 } else if id == 10 { 14 } else if id == 11 { 10 }
    else if id == 12 { 3 } else if id == 13 { 7 } else if id == 14 { 2 } else if id == 15 { 6 }
    else { 12 }
}

/// The (column, row) of the `Auto4` layout that a neighbour state selects;
/// states of 16 and above fall back to the isolated tile at (0, 3).
pub open spec fn auto4_pos(id: int) -> (int, int) {
    if id == 0 { (0, 3) } else if id == 1 { (0, 2) } else if id == 2 { (1, 3) } else if id == 3 { (1, 2) }
    else if id == 4 { (0, 0) } else if id == 5 { (0, 1) } else if id == 6 { (1, 0) } else if id == 7 { (1, 1) }
    else if id == 8 { (3, 3) } else if id == 9 { (3, 2) } else if id == 10 { (2, 3) } else if id == 11 { (2, 2) }
    else if id == 12 { (3, 0) } else if id == 13 { (3, 1) } else if id == 14 { (2, 0) } else if id == 15 { (2, 1) }
    else { (0, 3) }
}

impl TileNeighborReaction {
    /// The sprite index a neighbour state selects.
    pub open spec fn idx_of_state(self, id: int) -> int {
        match self {
            TileNeighborReaction::NoReaction => 0,
            TileNeighborReaction::Auto4 => auto4_index(id),
            TileNeighborReaction::Auto4Corners => if id > 11 { 11 } else { id },
            TileNeighborReaction::RevAuto4 => 0,
        }
    }

    /// The (column, row) in the reaction layout that a neighbour state selects.
    pub open spec fn pos_of_state(self, id: int) -> (int, int) {
        match self {
            TileNeighborReaction::NoReaction => (0, 0),
            TileNeighborReaction::Auto4 => auto4_pos(id),
            TileNeighborReaction::Auto4Corners => (id % 6, id / 6),
            TileNeighborReaction::RevAuto4 => (1, 1),
        }
    }

    /// Whether the offsets of this reaction can be listed (the corner variants have none).
    pub open spec fn has_offsets(self) -> bool {
        self is NoReaction || self is Auto4
    }

    /// The neighbour offsets and their weights in the neighbour state.
    pub open spec fn offsets(self) -> Seq<(IVec2, usize)> {
        if self is Auto4 {
            seq![
                (IVec2 { x: 0, y: 1 }, 1usize),
                (IVec2 { x: 1, y: 0 }, 2usize),
                (IVec2 { x: 0, y: -1i32 }, 4usize),
                (IVec2 { x: -1i32, y: 0 }, 8usize),
            ]
        } else {
            seq![(IVec2 { x: 0, y: 0 }, 0usize)]
        }
    }

    /// The number of (columns, rows) of the layout that this reaction draws from.
    pub open spec fn layout_dims(self) -> (int, int) {
        match self {
            TileNeighborReaction::NoReaction => (1, 1),
            TileNeighborReaction::Auto4 => (4, 4),
            TileNeighborReaction::Auto4Corners => (0, 0),
            TileNeighborReaction::RevAuto4 => (3, 3),
        }
    }

    pub fn get_idx_from_neighborstate(&self, id: usize) -> (r: usize)
        ensures
            r == self.idx_of_state(id as int),
    {
        match self {
            TileNeighborReaction::NoReaction => 0,
            TileNeighborReaction::Auto4 => {
                match id {
                    0 => 12, 1 => 8, 2 => 13, 3 => 9, 4 => 0, 5 => 4, 6 => 1, 7 => 5,
                    8 => 15, 9 => 11, 10 => 14, 11 => 10, 12 => 3, 13 => 7, 14 => 2, 15 => 6,
                    _ => 12,
                }
            },
            TileNeighborReaction::Auto4Corners => {
                if id > 11 { 11 } else { id }
            },
            TileNeighborReaction::RevAuto4 => 0,
        }
    }

    pub fn get_pos_from_neighborstate(&self, id: usize) -> (r: (usize, usize))
        ensures
            r.0 == self.pos_of_state(id as int).0,
            r.1 == self.pos_of_state(id as int).1,
    {
        match self {
            TileNeighborReaction::NoReaction => (0, 0),
            TileNeighborReaction::Auto4 => {
                match id {
                    0 => (0, 3), 1 => (0, 2), 2 => (1, 3), 3 => (1, 2),
                    4 => (0, 0), 5 => (0, 1), 6 => (1, 0), 7 => (1, 1),
                    8 => (3, 3), 9 => (3, 2), 10 => (2, 3), 11 => (2, 2),
                    12 => (3, 0), 13 => (3, 1), 14 => (2, 0), 15 => (2, 1),
                    _ => (0, 3),
                }
            },
            TileNeighborReaction::Auto4Corners => (id % 6, id / 6),
            TileNeighborReaction::RevAuto4 => (1, 1),
        }
    }

    /// The neighbour offsets and weights; the corner reactions have none and
    /// are left out.
    pub fn iter_offsets(&self) -> (r: Vec<(IVec2, usize)>)
        requires
            self.has_offsets(),
        ensures
            r@ == self.offsets(),
    {
        match self {
            TileNeighborReaction::Auto4 => {
                let r = vec![
                    (ivec2(0, 1), 1usize),
                    (ivec2(1, 0), 2usize),
                    (ivec2(0, -1), 4usize),
                    (ivec2(-1, 0), 8usize),
                ];
                assert(r@ =~= self.offsets());
                r
            },
            _ => {
                let r = vec![(ivec2(0, 0), 0usize)];
                assert(r@ =~= self.offsets());
                r
            },
        }
    }
}

/// The `Auto4` layout has one sprite for each of the 16 neighbour states:
/// every (column, row) of its 4 by 4 grid is selected by exactly one state.
pub open spec fn auto4_state_of_pos(col: int, row: int) -> int {
    if col == 0 && row == 3 { 0 } else if col == 0 && row == 2 { 1 } else if col == 1 && row == 3 { 2 }
    else if col == 1 && row == 2 { 3 } else if col == 0 && row == 0 { 4 } else if col == 0 && row == 1 { 5 }
    else if col == 1 && row == 0 { 6 } else if col == 1 && row == 1 { 7 } else if col == 3 && row == 3 { 8 }
    else if col == 3 && row == 2 { 9 } else if col == 2 && row == 3 { 10 } else if col == 2 && row == 2 { 11 }
    else if col == 3 && row == 0 { 12 } else if col == 3 && row == 1 { 13 } else if col == 2 && row == 0 { 14 }
    else { 15 }
}

/// The `Auto4` layout is a one-to-one match between the 16 neighbour states
/// and the 16 cells of its 4 by 4 grid, and its sprite indices are a permutation
/// of 0..16.
pub proof fn lemma_auto4_layout_is_bijective(id: int, col: int, row: int)
    ensures
        0 <= id < 16 ==> {
            let p = auto4_pos(id);
            &&& 0 <= p.0 < 4 && 0 <= p.1 < 4
            &&& auto4_state_of_pos(p.0, p.1) == id
            &&& 0 <= auto4_index(id) < 16
        },
        0 <= col < 4 && 0 <= row < 4 ==> {
            let s = auto4_state_of_pos(col, row);
            &&& 0 <= s < 16
            &&& auto4_pos(s) == (col, row)
        },
        forall|a: int, b: int|
            0 <= a < 16 && 0 <= b < 16 && a != b ==> #[trigger] auto4_index(a) != #[trigger] auto4_index(b),
{
}


/// Whether a tile covers one grid cell or several. A multi-cell tile carries a
/// depth mask indexed `z_mask[y][x]`: cells at depth 0 form its main layer and
/// take up grid cells, other cells are overlays drawn at depth `z / 128`.
#[derive(Debug)]
pub enum MultitileType {
    Single,
    Multitile { z_mask: Vec<Vec<i8>> },
}

impl MultitileType {
    /// The depth mask, if any.
    pub open spec fn mask(&self) -> Option<Seq<Seq<i8>>> {
        match self {
            MultitileType::Single => Option::None,
            MultitileType::Multitile { z_mask } => Option::Some(mask_view(z_mask)),
        }
    }

    /// The depth level of cell `pos` (0 where the mask has no entry).
    pub fn get_z(&self, pos: UVec2) -> (r: i8)
        ensures
            r == z_at(self.mask(), pos.x as int, pos.y as int),
    {
        match self {
            MultitileType::Single => 0,
            MultitileType::Multitile { z_mask } => {
                let y = pos.y as usize;
                let x = pos.x as usize;
                if y < z_mask.len() {
                    let row = &z_mask[y];
                    if x < row.len() {
                        return row[x];
                    }
                }
                0
            },
        }
    }
}

/// The rows of a depth mask as sequences.
pub open spec fn mask_view(m: &Vec<Vec<i8>>) -> Seq<Seq<i8>> {
    m@.map_values(|r: Vec<i8>| r@)
}

/// The depth level of cell (x, y) of a mask (0 outside the mask and for single tiles).
pub open spec fn z_at(mask: Option<Seq<Seq<i8>>>, x: int, y: int) -> i8 {
    match mask {
        Option::None => 0,
        Option::Some(m) => if 0 <= y < m.len() && 0 <= x < m[y].len() { m[y][x] } else { 0 },
    }
}

/// The plain contents of a tile kind.
#[verifier::ext_equal]
pub struct TileSpec {
    pub name: Seq<char>,
    pub image: u64,
    pub atlas_layout: u64,
    pub frame_count: usize,
    pub variant_count: usize,
    pub mask: Option<Seq<Seq<i8>>>,
    pub reaction: TileNeighborReaction,
    pub origin_offset: UVec2,
    pub size: UVec2,
    pub atlas_columns: usize,
    pub atlas_rows: usize,
    pub main_layer_rect: (UVec2, UVec2),
    pub to_update: Seq<IVec2>,
}

/// A tile kind: its name, the keys of the image and atlas layout it is drawn
/// from, how many animation frames and random variants it has, its cell layout,
/// its neighbour reaction, the cell that is its origin, its size in cells, the
/// shape of its reaction layout, the bounding rectangle of its main layer and the
/// offsets of the cells to refresh when it changes.
pub struct TileData {
    pub name: String,
    pub image: u64,
    pub atlas_layout: u64,
    pub frame_count: usize,
    pub variant_count: usize,
    pub multitile: MultitileType,
    pub neighbor_reaction: TileNeighborReaction,
    pub origin_offset: UVec2,
    pub size: UVec2,
    pub atlas_columns: usize,
    pub atlas_rows: usize,
    pub main_layer_rect: (UVec2, UVec2),
    pub to_update: Vec<IVec2>,
}

impl View for TileData {
    type V = TileSpec;

    open spec fn view(&self) -> TileSpec {
        TileSpec {
            name: self.name@,
            image: self.image,
            atlas_layout: self.atlas_layout,
            frame_count: self.frame_count,
            variant_count: self.variant_count,
            mask: self.multitile.mask(),
            reaction: self.neighbor_reaction,
            origin_offset: self.origin_offset,
            size: self.size,
            atlas_columns: self.atlas_columns,
            atlas_rows: self.atlas_rows,
            main_layer_rect: self.main_layer_rect,
            to_update: self.to_update@,
        }
    }
}

/// Largest size or origin coordinate of a tile: below it, every cell coordinate
/// computed in `i32` from a grid position (at most `MAX_GRID_SIZE`), a tile's
/// origin and its cells stays in range.
pub const MAX_TILE_EXTENT: u32 = 0x0FFF_FFFF;

/// The number of frames drawn (at least one).
pub open spec fn frames_drawn(t: TileSpec) -> int {
    if t.frame_count == 0 { 1 } else { t.frame_count as int }
}

/// The number of variants drawn (at least one).
pub open spec fn variants_drawn(t: TileSpec) -> int {
    if t.variant_count == 0 { 1 } else { t.variant_count as int }
}

/// Width of the atlas grid in sprites: one block of the reaction layout per frame.
pub open spec fn atlas_width(t: TileSpec) -> int {
    frames_drawn(t) * t.atlas_columns * t.size.x
}

/// Height of the atlas grid in sprites: one block of the reaction layout per variant.
pub open spec fn atlas_height(t: TileSpec) -> int {
    variants_drawn(t) * t.atlas_rows * t.size.y
}

impl TileSpec {
    /// A tile kind as the tile parser builds it from a description whose sides
    /// stay within `MAX_TILE_EXTENT`: a reaction with a layout, layout dimensions
    /// that match it, a size and origin within that bound, an ordered main layer
    /// rectangle,
    /// a mask exactly for multi-cell tiles whose first row spans the width, an
    /// atlas grid whose sprite count fits in `usize`, and cells to refresh at
    /// most one cell beyond that bound.
    pub open spec fn wf(self) -> bool {
        &&& self.reaction != TileNeighborReaction::Auto4Corners
        &&& self.atlas_columns == self.reaction.layout_dims().0
        &&& self.atlas_rows == self.reaction.layout_dims().1
        &&& 1 <= self.size.x <= MAX_TILE_EXTENT
        &&& 1 <= self.size.y <= MAX_TILE_EXTENT
        &&& self.origin_offset.x <= MAX_TILE_EXTENT
        &&& self.origin_offset.y <= MAX_TILE_EXTENT
        &&& self.main_layer_rect.0.x <= self.main_layer_rect.1.x < MAX_TILE_EXTENT
        &&& self.main_layer_rect.0.y <= self.main_layer_rect.1.y < MAX_TILE_EXTENT
        &&& (self.mask is Some <==> (self.size.x > 1 || self.size.y > 1))
        &&& (self.mask matches Option::Some(m) ==> {
            &&& m.len() == self.size.y
            &&& m[0].len() == self.size.x
            &&& forall|y: int| 0 <= y < m.len() ==> #[trigger] m[y].len() <= MAX_TILE_EXTENT
        })
        &&& atlas_width(self) * atlas_height(self) <= usize::MAX
        &&& forall|i: int| 0 <= i < self.to_update.len() ==> {
            &&& -(MAX_TILE_EXTENT as int) - 1 <= #[trigger] self.to_update[i].x <= MAX_TILE_EXTENT + 1
            &&& -(MAX_TILE_EXTENT as int) - 1 <= self.to_update[i].y <= MAX_TILE_EXTENT + 1
        }
    }

    /// The origin cell seen from offset `off` of the origin, with y pointing down.
    pub open spec fn relative_of(self, off: IVec2) -> (int, int) {
        (self.origin_offset.x + off.x, self.origin_offset.y - off.y)
    }

    /// The offset from the origin of tile cell (x, y), with y pointing up.
    pub open spec fn offset_of(self, x: int, y: int) -> (int, int) {
        (x - self.origin_offset.x, self.origin_offset.y - y)
    }
}

/// The index in a tile's atlas of the sprite for tile cell (cx, cy), neighbour
/// state `state`, variant `variant` and frame `frame`: frames run left to right,
/// variants top to bottom, and inside a block the reaction layout places the
/// tile's cells.
pub open spec fn atlas_index(t: TileSpec, cx: int, cy: int, state: int, variant: int, frame: int) -> int {
    let p = t.reaction.pos_of_state(state);
    let px = p.0 * t.size.x;
    let py = p.1 * t.size.y;
    t.atlas_columns * t.size.x * frame
        + variant * t.atlas_rows * t.size.y * t.atlas_columns * t.size.x * frames_drawn(t)
        + frames_drawn(t) * t.atlas_columns * t.size.x * (py + cy)
        + (px + cx)
}

/// Every intermediate value of the atlas index computation fits in `usize`.
pub open spec fn atlas_index_fits(t: TileSpec, cx: int, cy: int, state: int, variant: int, frame: int) -> bool {
    let p = t.reaction.pos_of_state(state);
    let px = p.0 * t.size.x;
    let py = p.1 * t.size.y;
    let f = frames_drawn(t);
    &&& 0 <= p.0 && 0 <= p.1
    &&& px <= usize::MAX && py <= usize::MAX
    &&& t.atlas_columns * t.size.x * frame <= usize::MAX
    &&& variant * t.atlas_rows * t.size.y * t.atlas_columns * t.size.x * f <= usize::MAX
    &&& variant * t.atlas_rows <= usize::MAX
    &&& variant * t.atlas_rows * t.size.y <= usize::MAX
    &&& variant * t.atlas_rows * t.size.y * t.atlas_columns <= usize::MAX
    &&& variant * t.atlas_rows * t.size.y * t.atlas_columns * t.size.x <= usize::MAX
    &&& t.atlas_columns * t.size.x <= usize::MAX
    &&& f * t.atlas_columns <= usize::MAX
    &&& f * t.atlas_columns * t.size.x <= usize::MAX
    &&& py + cy <= usize::MAX
    &&& f * t.atlas_columns * t.size.x * (py + cy) <= usize::MAX
    &&& px + cx <= usize::MAX
    &&& atlas_index(t, cx, cy, state, variant, frame) <= usize::MAX
}

/// For a well-formed tile kind, every sprite index for one of its cells,
/// any neighbour state, a drawn variant and a drawn frame lies inside its atlas
/// grid, and computing it overflows nothing.
pub proof fn lemma_atlas_index_in_grid(t: TileSpec, cx: int, cy: int, state: int, variant: int, frame: int)
    requires
        t.wf(),
        0 <= cx < t.size.x,
        0 <= cy < t.size.y,
        0 <= state,
        0 <= variant < variants_drawn(t),
        0 <= frame < frames_drawn(t),
    ensures
        atlas_index_fits(t, cx, cy, state, variant, frame),
        0 <= atlas_index(t, cx, cy, state, variant, frame) < atlas_width(t) * atlas_height(t),
{
    let p = t.reaction.pos_of_state(state);
    let sx = t.size.x as int;
    let sy = t.size.y as int;
    let c = t.atlas_columns as int;
    let r = t.atlas_rows as int;
    let f = frames_drawn(t);
    let v = variants_drawn(t);
    assert(0 <= p.0 < c && 0 <= p.1 < r) by {
        if t.reaction is Auto4 {
            lemma_auto4_layout_is_bijective(state, 0, 0);
        }
    }
    let w = f * c * sx;
    let h = v * r * sy;
    let col = frame * c * sx + p.0 * sx + cx;
    let row = variant * r * sy + p.1 * sy + cy;
    assert(0 <= col < w) by (nonlinear_arith)
        requires col == frame * c * sx + p.0 * sx + cx, w == f * c * sx, 0 <= frame < f,
            0 <= p.0 < c, 0 <= cx < sx;
    assert(0 <= row < h) by (nonlinear_arith)
        requires row == variant * r * sy + p.1 * sy + cy, h == v * r * sy, 0 <= variant < v,
            0 <= p.1 < r, 0 <= cy < sy;
    let idx = atlas_index(t, cx, cy, state, variant, frame);
    let a = variant * r * sy;
    let q = p.1 * sy + cy;
    assert(variant * r * sy * c * sx * f == a * w) by (nonlinear_arith)
        requires a == variant * r * sy, w == f * c * sx;
    assert(f * c * sx * q == q * w) by (nonlinear_arith)
        requires w == f * c * sx;
    assert(c * sx * frame == frame * c * sx) by (nonlinear_arith);
    assert((a + q) * w == a * w + q * w) by (nonlinear_arith);
    assert(idx == row * w + col);
    assert(0 <= idx < w * h) by (nonlinear_arith)
        requires idx == row * w + col, 0 <= row < h, 0 <= col < w;
    assert(w * h <= usize::MAX);
    // every intermediate value is bounded by the index or by the grid size
    assert(1 <= sx && 1 <= sy && 1 <= c && 1 <= r && 1 <= f && 1 <= v);
    assert(p.0 * sx <= w * h && p.1 * sy <= w * h && c * sx * frame <= w * h
        && variant * r <= w * h && variant * r * sy <= w * h && variant * r * sy * c <= w * h
        && variant * r * sy * c * sx <= w * h && variant * r * sy * c * sx * f <= w * h
        && c * sx <= w * h && f * c <= w * h && f * c * sx <= w * h
        && p.1 * sy + cy <= w * h && f * c * sx * (p.1 * sy + cy) <= w * h
        && p.0 * sx + cx <= w * h) by (nonlinear_arith)
        requires
            0 <= p.0 < c, 0 <= p.1 < r, 0 <= cx < sx, 0 <= cy < sy, 0 <= variant < v,
            0 <= frame < f, 1 <= sx, 1 <= sy, 1 <= c, 1 <= r, 1 <= f, 1 <= v,
            w == f * c * sx, h == v * r * sy, 0 <= col < w, 0 <= row < h,
            col == frame * c * sx + p.0 * sx + cx, row == variant * r * sy + p.1 * sy + cy;
}


/// The index in a tile's atlas of the sprite for atlas cell (px, py) of variant
/// `variant` and frame `frame`.
pub open spec fn atlas_index_at(t: TileSpec, px: int, py: int, variant: int, frame: int) -> int {
    t.atlas_columns * t.size.x * frame
        + variant * t.atlas_rows * t.size.y * t.atlas_columns * t.size.x * frames_drawn(t)
        + frames_drawn(t) * t.atlas_columns * t.size.x * py
        + px
}

/// Every intermediate value of `atlas_index_at` fits in `usize`.
pub open spec fn atlas_index_at_fits(t: TileSpec, px: int, py: int, variant: int, frame: int) -> bool {
    let f = frames_drawn(t);
    &&& t.atlas_columns * t.size.x <= usize::MAX
    &&& t.atlas_columns * t.size.x * frame <= usize::MAX
    &&& variant * t.atlas_rows <= usize::MAX
    &&& variant * t.atlas_rows * t.size.y <= usize::MAX
    &&& variant * t.atlas_rows * t.size.y * t.atlas_columns <= usize::MAX
    &&& variant * t.atlas_rows * t.size.y * t.atlas_columns * t.size.x <= usize::MAX
    &&& variant * t.atlas_rows * t.size.y * t.atlas_columns * t.size.x * f <= usize::MAX
    &&& f * t.atlas_columns <= usize::MAX
    &&& f * t.atlas_columns * t.size.x <= usize::MAX
    &&& f * t.atlas_columns * t.size.x * py <= usize::MAX
    &&& atlas_index_at(t, px, py, variant, frame) <= usize::MAX
}

/// The cells of column `x` up to row `n`, top to bottom.
pub open spec fn column_cells(x: int, n: nat) -> Seq<(int, int)> {
    Seq::new(n, |y: int| (x, y))
}

/// The cells of a `w` by `h` tile, column after column.
pub open spec fn tile_cells(w: nat, h: nat) -> Seq<(int, int)>
    decreases w,
{
    if w == 0 {
        Seq::empty()
    } else {
        tile_cells((w - 1) as nat, h) + column_cells(w - 1, h)
    }
}

/// The offset (as a vector) of tile cell `c` from the tile's origin.
pub open spec fn cell_offset(t: TileSpec, c: (int, int)) -> IVec2 {
    IVec2 { x: t.offset_of(c.0, c.1).0 as i32, y: t.offset_of(c.0, c.1).1 as i32 }
}

/// The offsets of the main-layer cells (depth 0) among `cells`, in order.
pub open spec fn main_offsets(t: TileSpec, cells: Seq<(int, int)>) -> Seq<IVec2>
    decreases cells.len(),
{
    if cells.len() == 0 {
        Seq::empty()
    } else {
        let rest = main_offsets(t, cells.drop_last());
        let c = cells.last();
        if z_at(t.mask, c.0, c.1) == 0 { rest.push(cell_offset(t, c)) } else { rest }
    }
}

/// The atlas indices of the overlay cells (depth not 0) among `cells`, in order.
pub open spec fn overlay_indices(t: TileSpec, cells: Seq<(int, int)>, state: int, variant: int, frame: int) -> Seq<usize>
    decreases cells.len(),
{
    if cells.len() == 0 {
        Seq::empty()
    } else {
        let rest = overlay_indices(t, cells.drop_last(), state, variant, frame);
        let c = cells.last();
        if z_at(t.mask, c.0, c.1) != 0 {
            rest.push(atlas_index(t, c.0, c.1, state, variant, frame) as usize)
        } else {
            rest
        }
    }
}

/// For every cell: its offset, its atlas index and its depth level.
pub open spec fn atlas_entries(t: TileSpec, cells: Seq<(int, int)>, state: int, variant: int, frame: int) -> Seq<(IVec2, usize, i8)> {
    cells.map_values(|c: (int, int)|
        (cell_offset(t, c), atlas_index(t, c.0, c.1, state, variant, frame) as usize, z_at(t.mask, c.0, c.1)))
}

impl TileSpec {
    /// The size and origin are small enough for `i32` offsets.
    pub open spec fn coords_fit(self) -> bool {
        &&& self.size.x <= i32::MAX && self.size.y <= i32::MAX
        &&& self.origin_offset.x <= i32::MAX && self.origin_offset.y <= i32::MAX
    }

    /// The atlas index of every cell of the tile can be computed for these arguments.
    pub open spec fn indices_fit(self, state: int, variant: int, frame: int) -> bool {
        forall|cx: int, cy: int| 0 <= cx < self.size.x && 0 <= cy < self.size.y
            ==> #[trigger] atlas_index_fits(self, cx, cy, state, variant, frame)
    }

    /// All the cells of the tile.
    pub open spec fn cells(self) -> Seq<(int, int)> {
        tile_cells(self.size.x as nat, self.size.y as nat)
    }

    /// Width and height of the main layer.
    pub open spec fn main_layer_size(self) -> (int, int) {
        (self.main_layer_rect.1.x - self.main_layer_rect.0.x + 1,
         self.main_layer_rect.1.y - self.main_layer_rect.0.y + 1)
    }

    /// The neighbour offsets scaled by the main layer's size, with their weights.
    pub open spec fn neighbor_offsets(self) -> Seq<(IVec2, usize)> {
        self.reaction.offsets().map_values(|o: (IVec2, usize)|
            (IVec2 { x: (o.0.x * self.main_layer_size().0) as i32, y: (o.0.y * self.main_layer_size().1) as i32 }, o.1))
    }
}

/// For a tile without a neighbour reaction, the sprite index of an atlas cell
/// is the index of that tile cell for every neighbour state.
pub proof fn lemma_plain_tile_index_at(t: TileSpec, cx: int, cy: int, state: int, variant: int, frame: int)
    requires
        t.reaction == TileNeighborReaction::NoReaction,
    ensures
        atlas_index_at(t, cx, cy, variant, frame) == atlas_index(t, cx, cy, state, variant, frame),
        atlas_index_fits(t, cx, cy, state, variant, frame) ==> atlas_index_at_fits(t, cx, cy, variant, frame),
{
    assert(t.reaction.pos_of_state(state) == (0int, 0int));
    assert(0 * t.size.x == 0) by (nonlinear_arith);
    assert(0 * t.size.y == 0) by (nonlinear_arith);
}

proof fn lemma_main_overlay_split(t: TileSpec, cells: Seq<(int, int)>, state: int, variant: int, frame: int)
    ensures
        main_offsets(t, cells).len() + overlay_indices(t, cells, state, variant, frame).len() == cells.len(),
        t.mask is None ==> main_offsets(t, cells) == cells.map_values(|c: (int, int)| cell_offset(t, c)),
    decreases cells.len(),
{
    if cells.len() > 0 {
        lemma_main_overlay_split(t, cells.drop_last(), state, variant, frame);
        if t.mask is None {
            assert(cells.map_values(|c: (int, int)| cell_offset(t, c))
                =~= cells.drop_last().map_values(|c: (int, int)| cell_offset(t, c)).push(cell_offset(t, cells.last())));
        }
    }
}

/// A tile's cells split into its main-layer cells and its overlay cells, which
/// together number its width times its height; one atlas entry is listed per
/// cell; and a single-cell tile kind lists every cell's offset as main-layer.
pub proof fn lemma_cell_counts(t: TileSpec, state: int, variant: int, frame: int)
    ensures
        t.cells().len() == t.size.x * t.size.y,
        main_offsets(t, t.cells()).len() + overlay_indices(t, t.cells(), state, variant, frame).len()
            == t.size.x * t.size.y,
        atlas_entries(t, t.cells(), state, variant, frame).len() == t.size.x * t.size.y,
        t.mask is None ==> main_offsets(t, t.cells()) == t.cells().map_values(|c: (int, int)| cell_offset(t, c)),
{
    crate::tile_grid::lemma_tile_cells_index(t.size.x as nat, t.size.y as nat);
    lemma_main_overlay_split(t, t.cells(), state, variant, frame);
}

/// Under `wf`, every index that `indices_fit` asks for can be computed for
/// any neighbour state, drawn variant and drawn frame.
pub proof fn lemma_wf_indices_fit(t: TileSpec, state: int, variant: int, frame: int)
    requires
        t.wf(),
        0 <= state,
        0 <= variant < variants_drawn(t),
        0 <= frame < frames_drawn(t),
    ensures
        t.indices_fit(state, variant, frame),
        t.coords_fit(),
{
    assert forall|cx: int, cy: int| 0 <= cx < t.size.x && 0 <= cy < t.size.y
        implies #[trigger] atlas_index_fits(t, cx, cy, state, variant, frame) by {
        lemma_atlas_index_in_grid(t, cx, cy, state, variant, frame);
    }
}

impl TileData {
    pub fn get_atlas_idx_from_neighborstate(&self, offset: (usize, usize), neighborstate: usize, variant: usize, frame: usize) -> (r: usize)
        requires
            atlas_index_fits(self@, offset.0 as int, offset.1 as int, neighborstate as int, variant as int, frame as int),
        ensures
            r == atlas_index(self@, offset.0 as int, offset.1 as int, neighborstate as int, variant as int, frame as int),
    {
        let p = self.neighbor_reaction.get_pos_from_neighborstate(neighborstate);
        let pos = (p.0 * self.size.x as usize, p.1 * self.size.y as usize);
        let frames = if self.frame_count == 0 { 1 } else { self.frame_count };
        self.atlas_columns * self.size.x as usize * frame
            + variant * self.atlas_rows * self.size.y as usize * self.atlas_columns * self.size.x as usize * frames
            + frames * self.atlas_columns * self.size.x as usize * (pos.1 + offset.1)
            + (pos.0 + offset.0)
    }

    pub fn get_atlas_idx_from_multitile_pos(&self, pos: (usize, usize), variant: usize, frame: usize) -> (r: usize)
        requires
            atlas_index_at_fits(self@, pos.0 as int, pos.1 as int, variant as int, frame as int),
        ensures
            r == atlas_index_at(self@, pos.0 as int, pos.1 as int, variant as int, frame as int),
    {
        let frames = if self.frame_count == 0 { 1 } else { self.frame_count };
        self.atlas_columns * self.size.x as usize * frame
            + variant * self.atlas_rows * self.size.y as usize * self.atlas_columns * self.size.x as usize * frames
            + frames * self.atlas_columns * self.size.x as usize * pos.1
            + pos.0
    }

    /// Width and height of the main layer.
    pub fn get_main_layer_size(&self) -> (r: UVec2)
        requires
            self.main_layer_rect.0.x <= self.main_layer_rect.1.x < u32::MAX,
            self.main_layer_rect.0.y <= self.main_layer_rect.1.y < u32::MAX,
        ensures
            r.x == self@.main_layer_size().0,
            r.y == self@.main_layer_size().1,
    {
        uvec2(self.main_layer_rect.1.x - self.main_layer_rect.0.x + 1,
              self.main_layer_rect.1.y - self.main_layer_rect.0.y + 1)
    }

    pub fn get_main_layer_rect(&self) -> (r: (UVec2, UVec2))
        ensures
            r == self.main_layer_rect,
    {
        self.main_layer_rect
    }

    pub fn is_multitile(&self) -> (r: bool)
        ensures
            r == (self@.mask is Some),
    {
        match self.multitile {
            MultitileType::Single => false,
            MultitileType::Multitile { .. } => true,
        }
    }

    pub fn has_reaction(&self) -> (r: bool)
        ensures
            r == (self.neighbor_reaction != TileNeighborReaction::NoReaction),
    {
        match self.neighbor_reaction {
            TileNeighborReaction::NoReaction => false,
            TileNeighborReaction::Auto4 => true,
            TileNeighborReaction::Auto4Corners => true,
            TileNeighborReaction::RevAuto4 => true,
        }
    }

    pub fn size(&self) -> (r: UVec2)
        ensures
            r == self.size,
    {
        self.size
    }

    /// The cells to refresh around the tile when it changes.
    pub fn iter_to_update(&self) -> (r: &Vec<IVec2>)
        ensures
            r@ == self.to_update@,
    {
        &self.to_update
    }

    /// Converts an offset from the origin (y up) into a tile cell (y down).
    /// Coordinates are wrapped into `u32` as `as` does.
    pub fn origin_offset_to_relative(&self, offset: IVec2) -> (r: UVec2)
        requires
            self.origin_offset.x <= i32::MAX,
            self.origin_offset.y <= i32::MAX,
            offset.y != i32::MIN,
            i32::MIN <= self.origin_offset.x + offset.x <= i32::MAX,
            i32::MIN <= self.origin_offset.y - offset.y <= i32::MAX,
        ensures
            r.x == self@.relative_of(offset).0 as u32,
            r.y == self@.relative_of(offset).1 as u32,
    {
        let ox = self.origin_offset.x as i32;
        let oy = self.origin_offset.y as i32;
        let x = ox + offset.x;
        let y = oy + (-offset.y);
        uvec2(#[verifier::truncate] (x as u32), #[verifier::truncate] (y as u32))
    }

    /// Converts a tile cell (y down) into an offset from the origin (y up).
    /// Coordinates are read as `i32` as `as` does.
    pub fn relative_to_origin_offset(&self, pos: UVec2) -> (r: IVec2)
        requires
            self.origin_offset.x <= i32::MAX,
            self.origin_offset.y <= i32::MAX,
            i32::MIN <= (pos.x as i32) - self.origin_offset.x <= i32::MAX,
            i32::MIN < (pos.y as i32) - self.origin_offset.y <= i32::MAX,
        ensures
            r.x == (pos.x as i32) - self.origin_offset.x,
            r.y == self.origin_offset.y - (pos.y as i32),
    {
        let ox = self.origin_offset.x as i32;
        let oy = self.origin_offset.y as i32;
        let dx = (#[verifier::truncate] (pos.x as i32)) - ox;
        let dy = (#[verifier::truncate] (pos.y as i32)) - oy;
        ivec2(dx, -dy)
    }

    /// The neighbour offsets scaled by the main layer's size, with their weights;
    /// the corner reactions have none and are left out.
    pub fn iter_neighbors_offsets(&self) -> (r: Vec<(IVec2, usize)>)
        requires
            self.neighbor_reaction.has_offsets(),
            self.main_layer_rect.0.x <= self.main_layer_rect.1.x < i32::MAX,
            self.main_layer_rect.0.y <= self.main_layer_rect.1.y < i32::MAX,
        ensures
            r@ == self@.neighbor_offsets(),
    {
        let offs = self.neighbor_reaction.iter_offsets();
        let size = self.get_main_layer_size();
        let sx = size.x as i32;
        let sy = size.y as i32;
        let mut r: Vec<(IVec2, usize)> = Vec::new();
        let mut i: usize = 0;
        while i < offs.len()
            invariant
                offs@ == self@.reaction.offsets(),
                sx == self@.main_layer_size().0,
                sy == self@.main_layer_size().1,
                1 <= sx,
                1 <= sy,
                0 <= i <= offs.len(),
                r@ == self@.reaction.offsets().take(i as int).map_values(|o: (IVec2, usize)|
                    (IVec2 { x: (o.0.x * self@.main_layer_size().0) as i32, y: (o.0.y * self@.main_layer_size().1) as i32 }, o.1)),
            decreases offs.len() - i,
        {
            let (o, w) = offs[i];
            assert(-1 <= o.x <= 1 && -1 <= o.y <= 1);
            assert(-sx <= o.x * sx <= sx) by (nonlinear_arith) requires -1 <= o.x <= 1, 1 <= sx;
            assert(-sy <= o.y * sy <= sy) by (nonlinear_arith) requires -1 <= o.y <= 1, 1 <= sy;
            r.push((ivec2(o.x * sx, o.y * sy), w));
            assert(self@.reaction.offsets().take(i + 1) =~= self@.reaction.offsets().take(i as int).push(offs@[i as int]));
            i = i + 1;
        }
        assert(self@.reaction.offsets().take(offs.len() as int) =~= self@.reaction.offsets());
        r
    }
}


/// Turning a tile cell into its offset from the origin and back gives the
/// cell again, and the other way round.
pub proof fn lemma_relative_roundtrip(t: TileSpec, x: int, y: int, off: IVec2)
    ensures
        t.relative_of(IVec2 { x: t.offset_of(x, y).0 as i32, y: t.offset_of(x, y).1 as i32 }) == (x, y)
            || !(i32::MIN <= t.offset_of(x, y).0 <= i32::MAX && i32::MIN <= t.offset_of(x, y).1 <= i32::MAX),
        t.offset_of(t.relative_of(off).0, t.relative_of(off).1) == (off.x as int, off.y as int),
{
}

/// Appending the next cell of a column to the cells seen so far.
proof fn lemma_cells_step(w: nat, h: nat, x: int, y: nat)
    requires
        x == w,
        y < h,
    ensures
        (tile_cells(w, h) + column_cells(x, y)).push((x, y as int)) =~= tile_cells(w, h) + column_cells(x, (y + 1) as nat),
{
}

/// Moving from a finished column to the next one.
proof fn lemma_cells_column(w: nat, h: nat)
    ensures
        tile_cells(w, h) + column_cells(w as int, h) == tile_cells(w + 1, h),
        tile_cells(w, h) + column_cells(w as int, 0) =~= tile_cells(w, h),
{
}

impl TileData {
    /// The offsets of all of the tile's cells from its origin, column after column.
    pub fn iter_offsets(&self) -> (r: Vec<IVec2>)
        requires
            self@.coords_fit(),
        ensures
            r@ == self@.cells().map_values(|c: (int, int)| cell_offset(self@, c)),
    {
        let ghost t = self@;
        let mut r: Vec<IVec2> = Vec::new();
        let ox = self.origin_offset.x as i32;
        let oy = self.origin_offset.y as i32;
        let mut x: u32 = 0;
        while x < self.size.x
            invariant
                t == self@, t.coords_fit(), x <= self.size.x, ox == t.origin_offset.x, oy == t.origin_offset.y,
                r@ == tile_cells(x as nat, t.size.y as nat).map_values(|c: (int, int)| cell_offset(t, c)),
            decreases self.size.x - x,
        {
            let mut y: u32 = 0;
            proof { lemma_cells_column(x as nat, t.size.y as nat); }
            while y < self.size.y
                invariant
                    t == self@, t.coords_fit(), x < self.size.x, y <= self.size.y, ox == t.origin_offset.x,
                    oy == t.origin_offset.y,
                    r@ == (tile_cells(x as nat, t.size.y as nat) + column_cells(x as int, y as nat)).map_values(
                        |c: (int, int)| cell_offset(t, c)),
                decreases self.size.y - y,
            {
                let ghost before = tile_cells(x as nat, t.size.y as nat) + column_cells(x as int, y as nat);
                r.push(ivec2(x as i32 - ox, oy - y as i32));
                proof {
                    lemma_cells_step(x as nat, t.size.y as nat, x as int, y as nat);
                    assert(before.push((x as int, y as int)).map_values(|c: (int, int)| cell_offset(t, c))
                        =~= before.map_values(|c: (int, int)| cell_offset(t, c)).push(cell_offset(t, (x as int, y as int))));
                }
                y = y + 1;
            }
            proof { lemma_cells_column(x as nat, t.size.y as nat); }
            x = x + 1;
        }
        r
    }

    /// The offsets of the tile's main-layer cells (depth 0), column after column.
    pub fn iter_offsets_masked(&self) -> (r: Vec<IVec2>)
        requires
            self@.coords_fit(),
        ensures
            r@ == main_offsets(self@, self@.cells()),
    {
        let ghost t = self@;
        let mut r: Vec<IVec2> = Vec::new();
        let ox = self.origin_offset.x as i32;
        let oy = self.origin_offset.y as i32;
        let mut x: u32 = 0;
        while x < self.size.x
            invariant
                t == self@, t.coords_fit(), x <= self.size.x, ox == t.origin_offset.x, oy == t.origin_offset.y,
                r@ == main_offsets(t, tile_cells(x as nat, t.size.y as nat)),
            decreases self.size.x - x,
        {
            let mut y: u32 = 0;
            proof { lemma_cells_column(x as nat, t.size.y as nat); }
            while y < self.size.y
                invariant
                    t == self@, t.coords_fit(), x < self.size.x, y <= self.size.y, ox == t.origin_offset.x,
                    oy == t.origin_offset.y,
                    r@ == main_offsets(t, tile_cells(x as nat, t.size.y as nat) + column_cells(x as int, y as nat)),
                decreases self.size.y - y,
            {
                let ghost before = tile_cells(x as nat, t.size.y as nat) + column_cells(x as int, y as nat);
                let z = self.multitile.get_z(uvec2(x, y));
                if z == 0 {
                    r.push(ivec2(x as i32 - ox, oy - y as i32));
                }
                proof {
                    lemma_cells_step(x as nat, t.size.y as nat, x as int, y as nat);
                    assert(before.push((x as int, y as int)).drop_last() =~= before);
                }
                y = y + 1;
            }
            proof { lemma_cells_column(x as nat, t.size.y as nat); }
            x = x + 1;
        }
        r
    }

    /// For every cell of the tile, column after column: its offset from the
    /// origin, its atlas index for the given state, variant and frame, and its depth level.
    pub fn iter_tile_atlas_idxs(&self, neighborstate: usize, variant: usize, frame: usize) -> (r: Vec<(IVec2, usize, i8)>)
        requires
            self@.coords_fit(),
            self@.indices_fit(neighborstate as int, variant as int, frame as int),
        ensures
            r@ == atlas_entries(self@, self@.cells(), neighborstate as int, variant as int, frame as int),
    {
        let ghost t = self@;
        let ghost st = neighborstate as int;
        let ghost va = variant as int;
        let ghost fr = frame as int;
        let mut r: Vec<(IVec2, usize, i8)> = Vec::new();
        let ox = self.origin_offset.x as i32;
        let oy = self.origin_offset.y as i32;
        let mut x: u32 = 0;
        while x < self.size.x
            invariant
                t == self@, t.coords_fit(), t.indices_fit(st, va, fr), x <= self.size.x,
                ox == t.origin_offset.x, oy == t.origin_offset.y,
                st == neighborstate, va == variant, fr == frame,
                r@ == atlas_entries(t, tile_cells(x as nat, t.size.y as nat), st, va, fr),
            decreases self.size.x - x,
        {
            let mut y: u32 = 0;
            proof { lemma_cells_column(x as nat, t.size.y as nat); }
            while y < self.size.y
                invariant
                    t == self@, t.coords_fit(), t.indices_fit(st, va, fr), x < self.size.x, y <= self.size.y,
                    ox == t.origin_offset.x, oy == t.origin_offset.y,
                    st == neighborstate, va == variant, fr == frame,
                    r@ == atlas_entries(t, tile_cells(x as nat, t.size.y as nat) + column_cells(x as int, y as nat), st, va, fr),
                decreases self.size.y - y,
            {
                let ghost before = tile_cells(x as nat, t.size.y as nat) + column_cells(x as int, y as nat);
                assert(atlas_index_fits(t, x as int, y as int, st, va, fr));
                let idx = self.get_atlas_idx_from_neighborstate((x as usize, y as usize), neighborstate, variant, frame);
                let z = self.multitile.get_z(uvec2(x, y));
                r.push((ivec2(x as i32 - ox, oy - y as i32), idx, z));
                proof {
                    lemma_cells_step(x as nat, t.size.y as nat, x as int, y as nat);
                    assert(atlas_entries(t, before.push((x as int, y as int)), st, va, fr)
                        =~= atlas_entries(t, before, st, va, fr).push((cell_offset(t, (x as int, y as int)), idx, z)));
                }
                y = y + 1;
            }
            proof { lemma_cells_column(x as nat, t.size.y as nat); }
            x = x + 1;
        }
        r
    }

    /// The atlas indices of the tile's overlay cells (depth not 0), column after column.
    pub fn iter_tile_atlas_idxs_for_overlay(&self, neighborstate: usize, variant: usize, frame: usize) -> (r: Vec<usize>)
        requires
            self@.coords_fit(),
            self@.indices_fit(neighborstate as int, variant as int, frame as int),
        ensures
            r@ == overlay_indices(self@, self@.cells(), neighborstate as int, variant as int, frame as int),
    {
        let ghost t = self@;
        let ghost st = neighborstate as int;
        let ghost va = variant as int;
        let ghost fr = frame as int;
        let mut r: Vec<usize> = Vec::new();
        let mut x: u32 = 0;
        while x < self.size.x
            invariant
                t == self@, t.coords_fit(), t.indices_fit(st, va, fr), x <= self.size.x,
                st == neighborstate, va == variant, fr == frame,
                r@ == overlay_indices(t, tile_cells(x as nat, t.size.y as nat), st, va, fr),
            decreases self.size.x - x,
        {
            let mut y: u32 = 0;
            proof { lemma_cells_column(x as nat, t.size.y as nat); }
            while y < self.size.y
                invariant
                    t == self@, t.coords_fit(), t.indices_fit(st, va, fr), x < self.size.x, y <= self.size.y,
                    st == neighborstate, va == variant, fr == frame,
                    r@ == overlay_indices(t, tile_cells(x as nat, t.size.y as nat) + column_cells(x as int, y as nat), st, va, fr),
                decreases self.size.y - y,
            {
                let ghost before = tile_cells(x as nat, t.size.y as nat) + column_cells(x as int, y as nat);
                let z = self.multitile.get_z(uvec2(x, y));
                if z != 0 {
                    assert(atlas_index_fits(t, x as int, y as int, st, va, fr));
                    let idx = self.get_atlas_idx_from_neighborstate((x as usize, y as usize), neighborstate, variant, frame);
                    r.push(idx);
                }
                proof {
                    lemma_cells_step(x as nat, t.size.y as nat, x as int, y as nat);
                    assert(before.push((x as int, y as int)).drop_last() =~= before);
                }
                y = y + 1;
            }
            proof { lemma_cells_column(x as nat, t.size.y as nat); }
            x = x + 1;
        }
        r
    }
}


fn copy_row(a: &Vec<i8>) -> (r: Vec<i8>)
    ensures
        r@ == a@,
{
    let mut r: Vec<i8> = Vec::new();
    let mut i: usize = 0;
    while i < a.len()
        invariant
            i <= a.len(),
            r@ == a@.take(i as int),
        decreases a.len() - i,
    {
        r.push(a[i]);
        i = i + 1;
        assert(r@ =~= a@.take(i as int));
    }
    assert(a@.take(a.len() as int) =~= a@);
    r
}

fn copy_mask(a: &Vec<Vec<i8>>) -> (r: Vec<Vec<i8>>)
    ensures
        mask_view(&r) == mask_view(a),
{
    let mut r: Vec<Vec<i8>> = Vec::new();
    let mut i: usize = 0;
    while i < a.len()
        invariant
            i <= a.len(),
            r.len() == i,
            forall|k: int| 0 <= k < i ==> (#[trigger] r@[k])@ == a@[k]@,
        decreases a.len() - i,
    {
        let row = copy_row(&a[i]);
        r.push(row);
        i = i + 1;
    }
    assert(mask_view(&r) =~= mask_view(a));
    r
}

fn copy_offsets(a: &Vec<IVec2>) -> (r: Vec<IVec2>)
    ensures
        r@ == a@,
{
    let mut r: Vec<IVec2> = Vec::new();
    let mut i: usize = 0;
    while i < a.len()
        invariant
            i <= a.len(),
            r@ == a@.take(i as int),
        decreases a.len() - i,
    {
        r.push(a[i]);
        i = i + 1;
        assert(r@ =~= a@.take(i as int));
    }
    assert(a@.take(a.len() as int) =~= a@);
    r
}

fn row_eq(a: &Vec<i8>, b: &Vec<i8>) -> (r: bool)
    ensures
        r == (a@ == b@),
{
    if a.len() != b.len() {
        return false;
    }
    let mut i: usize = 0;
    while i < a.len()
        invariant
            a.len() == b.len(),
            i <= a.len(),
            forall|j: int| 0 <= j < i ==> a@[j] == b@[j],
        decreases a.len() - i,
    {
        if a[i] != b[i] {
            return false;
        }
        i = i + 1;
    }
    assert(a@ =~= b@);
    true
}

fn mask_eq(a: &Vec<Vec<i8>>, b: &Vec<Vec<i8>>) -> (r: bool)
    ensures
        r == (mask_view(a) == mask_view(b)),
{
    if a.len() != b.len() {
        assert(mask_view(a).len() != mask_view(b).len());
        return false;
    }
    let mut i: usize = 0;
    while i < a.len()
        invariant
            a.len() == b.len(),
            i <= a.len(),
            forall|j: int| 0 <= j < i ==> mask_view(a)[j] == mask_view(b)[j],
        decreases a.len() - i,
    {
        if !row_eq(&a[i], &b[i]) {
            assert(mask_view(a)[i as int] != mask_view(b)[i as int]);
            return false;
        }
        i = i + 1;
    }
    assert(mask_view(a) =~= mask_view(b));
    true
}

fn offsets_eq(a: &Vec<IVec2>, b: &Vec<IVec2>) -> (r: bool)
    ensures
        r == (a@ == b@),
{
    if a.len() != b.len() {
        return false;
    }
    let mut i: usize = 0;
    while i < a.len()
        invariant
            a.len() == b.len(),
            i <= a.len(),
            forall|j: int| 0 <= j < i ==> a@[j] == b@[j],
        decreases a.len() - i,
    {
        if a[i] != b[i] {
            return false;
        }
        i = i + 1;
    }
    assert(a@ =~= b@);
    true
}

impl MultitileType {
    /// A copy of this layout.
    pub fn duplicate(&self) -> (r: MultitileType)
        ensures
            r.mask() == self.mask(),
    {
        match self {
            MultitileType::Single => MultitileType::Single,
            MultitileType::Multitile { z_mask } => MultitileType::Multitile { z_mask: copy_mask(z_mask) },
        }
    }

    /// Whether two layouts are the same.
    pub fn same_as(&self, other: &MultitileType) -> (r: bool)
        ensures
            r == (self.mask() == other.mask()),
    {
        match (self, other) {
            (MultitileType::Single, MultitileType::Single) => true,
            (MultitileType::Multitile { z_mask: a }, MultitileType::Multitile { z_mask: b }) => mask_eq(a, b),
            _ => false,
        }
    }
}

impl Clone for TileData {
    fn clone(&self) -> (r: Self)
        ensures
            r@ == self@,
    {
        TileData {
            name: self.name.clone(),
            image: self.image,
            atlas_layout: self.atlas_layout,
            frame_count: self.frame_count,
            variant_count: self.variant_count,
            multitile: self.multitile.duplicate(),
            neighbor_reaction: self.neighbor_reaction,
            origin_offset: self.origin_offset,
            size: self.size,
            atlas_columns: self.atlas_columns,
            atlas_rows: self.atlas_rows,
            main_layer_rect: self.main_layer_rect,
            to_update: copy_offsets(&self.to_update),
        }
    }
}

impl TileData {
    /// Whether two tile kinds hold the same contents.
    pub fn same_as(&self, other: &TileData) -> (r: bool)
        ensures
            r == (self@ == other@),
    {
        let r = self.name == other.name
            && self.image == other.image
            && self.atlas_layout == other.atlas_layout
            && self.frame_count == other.frame_count
            && self.variant_count == other.variant_count
            && self.multitile.same_as(&other.multitile)
            && self.neighbor_reaction == other.neighbor_reaction
            && self.origin_offset == other.origin_offset
            && self.size == other.size
            && self.atlas_columns == other.atlas_columns
            && self.atlas_rows == other.atlas_rows
            && self.main_layer_rect.0 == other.main_layer_rect.0
            && self.main_layer_rect.1 == other.main_layer_rect.1
            && offsets_eq(&self.to_update, &other.to_update);
        proof {
            if r {
                assert(self@ =~= other@);
            }
        }
        r
    }
}


impl PartialEq for TileData {
    fn eq(&self, other: &Self) -> (r: bool) {
        self.same_as(other)
    }
}

impl vstd::std_specs::cmp::PartialEqSpecImpl for TileData {
    open spec fn obeys_eq_spec() -> bool {
        true
    }

    open spec fn eq_spec(&self, other: &TileData) -> bool {
        self@ == other@
    }
}

} // verus!
