//! Building tile kinds from their descriptions: size and layout of multi-cell
//! tiles, the rectangle of their main layer, the cells around them to refresh
//! and the shape of their texture atlas.
use vstd::prelude::*;
use crate::geom::{IVec2, UVec2, ivec2, uvec2};
use crate::tiles::{TileData, TileNeighborReaction, MultitileType, mask_view, TileSpec, MAX_TILE_EXTENT};

verus! {

/// A tile as its description file gives it: its name, an optional depth mask
/// (`mask[y][x]`, 0 for main-layer cells), an optional origin cell, an optional
/// neighbour reaction, and how many variant chances and animation delays it lists.
pub struct JsonTileData {
    pub name: String,
    pub multitile_z_mask: Option<Vec<Vec<i8>>>,
    pub origin: Option<(u16, u16)>,
    pub reaction: Option<TileNeighborReaction>,
    pub variant_count: Option<usize>,
    pub frame_count: Option<usize>,
}

/// The mask's rows as sequences, if there is a mask.
pub open spec fn json_mask(j: &JsonTileData) -> Option<Seq<Seq<i8>>> {
    match &j.multitile_z_mask {
        Option::None => Option::None,
        Option::Some(m) => Option::Some(mask_view(m)),
    }
}

/// The tile's size in cells: the width of the mask's first row and the number
/// of rows, or one cell without a mask (or with an empty one).
pub open spec fn json_size(j: &JsonTileData) -> (int, int) {
    match json_mask(j) {
        Option::Some(m) => if m.len() > 0 { (m[0].len() as int, m.len() as int) } else { (1, 1) },
        Option::None => (1, 1),
    }
}

/// The origin cell (0, 0 when not given).
pub open spec fn json_origin(j: &JsonTileData) -> (u16, u16) {
    match j.origin {
        Option::Some(o) => o,
        Option::None => (0, 0),
    }
}

/// The reaction (none when not given).
pub open spec fn json_reaction(j: &JsonTileData) -> TileNeighborReaction {
    match j.reaction {
        Option::Some(r) => r,
        Option::None => TileNeighborReaction::NoReaction,
    }
}

/// Cell (x, y) of the mask is a main-layer cell (depth 0).
pub open spec fn zero_cell(m: Seq<Seq<i8>>, x: int, y: int) -> bool {
    0 <= y < m.len() && 0 <= x < m[y].len() && m[y][x] == 0
}

/// The mask holds a main-layer cell.
pub open spec fn has_zero(m: Seq<Seq<i8>>) -> bool {
    exists|x: int, y: int| zero_cell(m, x, y)
}

/// Offset `p` (x right, y up, from the mask's top-left cell) touches a main-layer
/// cell, including diagonally, without being one.
pub open spec fn in_update_set(m: Seq<Seq<i8>>, p: IVec2) -> bool {
    &&& !zero_cell(m, p.x as int, -p.y)
    &&& exists|x: int, y: int| #[trigger] zero_cell(m, x, y) && x - 1 <= p.x <= x + 1 && -y - 1 <= p.y <= -y + 1
}

/// The eight offsets around a cell.
pub open spec fn around_offsets() -> Seq<IVec2> {
    seq![
        IVec2 { x: -1i32, y: -1i32 }, IVec2 { x: -1i32, y: 0 }, IVec2 { x: -1i32, y: 1 }, IVec2 { x: 0, y: -1i32 },
        IVec2 { x: 0, y: 1 }, IVec2 { x: 1, y: -1i32 }, IVec2 { x: 1, y: 0 }, IVec2 { x: 1, y: 1 },
    ]
}

/// The mask with the origin cell put at depth 0 (coordinates compared as `u16`).
pub open spec fn transformed_mask(m: Seq<Seq<i8>>, origin: (u16, u16)) -> Seq<Seq<i8>> {
    Seq::new(m.len(), |y: int| Seq::new(m[y].len(), |x: int|
        if origin == (x as u16, y as u16) { 0i8 } else { m[y][x] }))
}

/// Whether `r` bounds the mask's main layer: the least and greatest column and
/// row of its main-layer cells, or all zeros when it has none.
pub open spec fn is_main_layer_rect(m: Seq<Seq<i8>>, r: (UVec2, UVec2)) -> bool {
    if has_zero(m) {
        &&& exists|x: int, y: int| zero_cell(m, x, y) && x == r.0.x
        &&& exists|x: int, y: int| zero_cell(m, x, y) && x == r.1.x
        &&& exists|x: int, y: int| zero_cell(m, x, y) && y == r.0.y
        &&& exists|x: int, y: int| zero_cell(m, x, y) && y == r.1.y
        &&& forall|x: int, y: int| #[trigger] zero_cell(m, x, y) ==> r.0.x <= x <= r.1.x && r.0.y <= y <= r.1.y
    } else {
        r == (UVec2 { x: 0, y: 0 }, UVec2 { x: 0, y: 0 })
    }
}

/// The mask's dimensions leave room for `i32` offsets around every cell.
pub open spec fn mask_coords_fit(m: Seq<Seq<i8>>) -> bool {
    &&& m.len() < i32::MAX
    &&& forall|y: int| 0 <= y < m.len() ==> #[trigger] m[y].len() < i32::MAX
}

impl JsonTileData {
    /// Inputs the tile builder accepts: no `Auto4Corners` reaction (it has no
    /// layout), no mask whose first row is empty, and a mask small enough for
    /// `i32` offsets.
    pub open spec fn buildable(&self) -> bool {
        &&& json_reaction(self) != TileNeighborReaction::Auto4Corners
        &&& (json_mask(self) matches Option::Some(m) ==> (m.len() > 0 ==> m[0].len() > 0) && mask_coords_fit(m))
    }

    /// The number of frames laid out in the atlas (one when no delays are listed).
    pub open spec fn frames_laid_out(&self) -> int {
        match self.frame_count { Option::Some(n) => n as int, Option::None => 1 }
    }

    /// The number of variants laid out in the atlas (one when no chances are listed).
    pub open spec fn variants_laid_out(&self) -> int {
        match self.variant_count { Option::Some(n) => n as int, Option::None => 1 }
    }

    /// The atlas grid, in sprites: (columns, rows).
    pub open spec fn atlas_grid_spec(&self) -> (int, int) {
        let s = json_size(self);
        let d = json_reaction(self).layout_dims();
        (s.0 * d.0 * self.frames_laid_out(), s.1 * d.1 * self.variants_laid_out())
    }
}

/// The tile kind built from a description, drawn from image `image` and atlas
/// layout `layout`, apart from the order of its cells to refresh.
pub open spec fn built_tile(j: &JsonTileData, image: u64, layout: u64, t: TileSpec) -> bool {
    let s = json_size(j);
    let o = json_origin(j);
    let multi = s.0 > 1 || s.1 > 1;
    &&& t.name == j.name@
    &&& t.image == image
    &&& t.atlas_layout == layout
    &&& t.frame_count == match j.frame_count { Option::Some(n) => n, Option::None => 0usize }
    &&& t.variant_count == match j.variant_count { Option::Some(n) => n, Option::None => 0usize }
    &&& t.reaction == json_reaction(j)
    &&& t.atlas_columns == json_reaction(j).layout_dims().0
    &&& t.atlas_rows == json_reaction(j).layout_dims().1
    &&& t.origin_offset == (UVec2 { x: o.0 as u32, y: o.1 as u32 })
    &&& t.size == (UVec2 { x: s.0 as u32, y: s.1 as u32 })
    &&& if multi {
        let m = json_mask(j).unwrap();
        &&& t.mask == Option::Some(transformed_mask(m, o))
        &&& is_main_layer_rect(m, t.main_layer_rect)
        &&& t.to_update.no_duplicates()
        &&& forall|p: IVec2| t.to_update.contains(p) <==> in_update_set(m, p)
    } else {
        &&& t.mask == Option::<Seq<Seq<i8>>>::None
        &&& t.main_layer_rect == (UVec2 { x: 0, y: 0 }, UVec2 { x: (s.0 - 1) as u32, y: (s.1 - 1) as u32 })
        &&& t.to_update == around_offsets()
    }
}


/// The mask with its origin cell at depth 0.
fn transform_mask(m: &Vec<Vec<i8>>, origin: (u16, u16)) -> (r: Vec<Vec<i8>>)
    ensures
        mask_view(&r) == transformed_mask(mask_view(m), origin),
{
    let ghost mv = mask_view(m);
    let mut r: Vec<Vec<i8>> = Vec::new();
    let mut y: usize = 0;
    while y < m.len()
        invariant
            mv == mask_view(m),
            y <= m.len(),
            r.len() == y,
            forall|k: int| 0 <= k < y ==> (#[trigger] r@[k])@ == transformed_mask(mv, origin)[k],
        decreases m.len() - y,
    {
        let row = &m[y];
        let mut out: Vec<i8> = Vec::new();
        let mut x: usize = 0;
        while x < row.len()
            invariant
                mv == mask_view(m),
                y < m.len(),
                row@ == mv[y as int],
                x <= row.len(),
                out@ == transformed_mask(mv, origin)[y as int].take(x as int),
            decreases row.len() - x,
        {
            let v = if origin.0 == x as u16 && origin.1 == y as u16 { 0i8 } else { row[x] };
            out.push(v);
            x = x + 1;
            assert(out@ =~= transformed_mask(mv, origin)[y as int].take(x as int));
        }
        assert(out@ =~= transformed_mask(mv, origin)[y as int]);
        r.push(out);
        y = y + 1;
    }
    assert(mask_view(&r) =~= transformed_mask(mv, origin));
    r
}

/// The rectangle bounding the mask's main-layer cells (all zeros without any).
fn compute_main_layer_rect(m: &Vec<Vec<i8>>) -> (r: (UVec2, UVec2))
    requires
        mask_coords_fit(mask_view(m)),
    ensures
        is_main_layer_rect(mask_view(m), r),
{
    let ghost mv = mask_view(m);
    let mut first_y: Option<u32> = None;
    let mut last_y: u32 = 0;
    let mut min_x: Option<u32> = None;
    let mut max_x: u32 = 0;
    let ghost mut wmax: (int, int) = (0, 0);
    let ghost mut wlast: (int, int) = (0, 0);
    let ghost mut wfirst: (int, int) = (0, 0);
    let ghost mut wmin: (int, int) = (0, 0);
    let mut y: usize = 0;
    while y < m.len()
        invariant
            mv == mask_view(m),
            mask_coords_fit(mv),
            y <= m.len(),
            // nothing seen yet
            first_y is None <==> (forall|a: int, b: int| 0 <= b < y ==> !zero_cell(mv, a, b)),
            first_y is None <==> min_x is None,
            first_y is None ==> last_y == 0 && max_x == 0,
            // something seen: first_y, min_x are the least seen, last_y, max_x the greatest
            first_y matches Option::Some(fy) ==> {
                &&& zero_cell(mv, wfirst.0, wfirst.1) && wfirst.1 == fy
                &&& forall|a: int, b: int| 0 <= b < y && zero_cell(mv, a, b) ==> fy <= b <= last_y
            },
            min_x matches Option::Some(mx) ==> {
                &&& zero_cell(mv, wmin.0, wmin.1) && wmin.0 == mx
                &&& forall|a: int, b: int| 0 <= b < y && zero_cell(mv, a, b) ==> mx <= a <= max_x
            },
            first_y is Some ==> zero_cell(mv, wmax.0, wmax.1) && wmax.0 == max_x && wmax.1 < y,
            first_y is Some ==> zero_cell(mv, wlast.0, wlast.1) && wlast.1 == last_y && wlast.1 < y,
        decreases m.len() - y,
    {
        let row = &m[y];
        let mut x: usize = 0;
        while x < row.len()
            invariant
                mv == mask_view(m),
                mask_coords_fit(mv),
                y < m.len(),
                row@ == mv[y as int],
                x <= row.len(),
                first_y is None <==> (forall|a: int, b: int| (0 <= b < y || (b == y && a < x)) ==> !zero_cell(mv, a, b)),
                first_y is None <==> min_x is None,
                first_y is None ==> last_y == 0 && max_x == 0,
                first_y matches Option::Some(fy) ==> {
                    &&& zero_cell(mv, wfirst.0, wfirst.1) && wfirst.1 == fy
                    &&& forall|a: int, b: int| (0 <= b < y || (b == y && a < x)) && zero_cell(mv, a, b) ==> fy <= b <= last_y
                },
                min_x matches Option::Some(mx) ==> {
                    &&& zero_cell(mv, wmin.0, wmin.1) && wmin.0 == mx
                    &&& forall|a: int, b: int| (0 <= b < y || (b == y && a < x)) && zero_cell(mv, a, b) ==> mx <= a <= max_x
                },
                first_y is Some ==> zero_cell(mv, wmax.0, wmax.1) && wmax.0 == max_x && wmax.1 <= y,
                first_y is Some ==> zero_cell(mv, wlast.0, wlast.1) && wlast.1 == last_y && wlast.1 <= y,
            decreases row.len() - x,
        {
            if row[x] == 0 {
                assert(zero_cell(mv, x as int, y as int));
                if first_y.is_none() {
                    first_y = Some(y as u32);
                    proof { wfirst = (x as int, y as int); }
                }
                last_y = y as u32;
                proof { wlast = (x as int, y as int); }
                match min_x {
                    Some(mx) => {
                        if (x as u32) < mx {
                            min_x = Some(x as u32);
                            proof { wmin = (x as int, y as int); }
                        }
                    },
                    None => {
                        min_x = Some(x as u32);
                        proof { wmin = (x as int, y as int); }
                    },
                }
                if (x as u32) >= max_x {
                    max_x = x as u32;
                    proof { wmax = (x as int, y as int); }
                }
            }
            x = x + 1;
        }
        y = y + 1;
    }
    let fy = match first_y { Some(v) => v, None => 0 };
    let mx = match min_x { Some(v) => v, None => 0 };
    let r = (uvec2(mx, fy), uvec2(max_x, last_y));
    proof {
        if has_zero(mv) {
            let (a, b) = choose|a: int, b: int| zero_cell(mv, a, b);
            assert(zero_cell(mv, a, b));
            assert(first_y is Some);
            assert(zero_cell(mv, wmax.0, wmax.1));
            assert(zero_cell(mv, wlast.0, wlast.1));
            assert(zero_cell(mv, wfirst.0, wfirst.1));
            assert(zero_cell(mv, wmin.0, wmin.1));
        } else {
            if first_y is Some {
                assert(zero_cell(mv, wfirst.0, wfirst.1));
            }
        }
    }
    r
}


/// Whether cell (x, y) of the mask is a main-layer cell.
fn is_zero_at(m: &Vec<Vec<i8>>, x: i32, y: i32) -> (r: bool)
    ensures
        r == zero_cell(mask_view(m), x as int, y as int),
{
    if y < 0 || x < 0 {
        return false;
    }
    let yu = y as usize;
    let xu = x as usize;
    if yu < m.len() {
        let row = &m[yu];
        if xu < row.len() {
            return row[xu] == 0;
        }
    }
    false
}

/// Whether `v` holds `p`.
fn contains_offset(v: &Vec<IVec2>, p: IVec2) -> (r: bool)
    ensures
        r == v@.contains(p),
{
    let mut i: usize = 0;
    while i < v.len()
        invariant
            i <= v.len(),
            forall|k: int| 0 <= k < i ==> v@[k] != p,
        decreases v.len() - i,
    {
        if v[i] == p {
            return true;
        }
        i = i + 1;
    }
    false
}

/// Cell (a, b) comes before cell (x, y) in row-major order.
pub open spec fn before_cell(a: int, b: int, x: int, y: int) -> bool {
    (0 <= b < y) || (b == y && 0 <= a < x)
}

/// Offset `p` lies around cell (a, b) (x right, y up).
pub open spec fn near(p: IVec2, a: int, b: int) -> bool {
    a - 1 <= p.x <= a + 1 && -b - 1 <= p.y <= -b + 1
}

/// The offsets around the mask's main layer, each once.
fn compute_update_set(m: &Vec<Vec<i8>>) -> (r: Vec<IVec2>)
    requires
        mask_coords_fit(mask_view(m)),
    ensures
        r@.no_duplicates(),
        forall|p: IVec2| r@.contains(p) <==> in_update_set(mask_view(m), p),
{
    let ghost mv = mask_view(m);
    let mut r: Vec<IVec2> = Vec::new();
    let mut y: usize = 0;
    while y < m.len()
        invariant
            mv == mask_view(m),
            mask_coords_fit(mv),
            y <= m.len(),
            r@.no_duplicates(),
            forall|p: IVec2| r@.contains(p) ==> in_update_set(mv, p),
            forall|p: IVec2, a: int, b: int| 0 <= b < y && zero_cell(mv, a, b) && near(p, a, b)
                && !zero_cell(mv, p.x as int, -p.y) ==> r@.contains(p),
        decreases m.len() - y,
    {
        let row_len = m[y].len();
        let mut x: usize = 0;
        while x < row_len
            invariant
                mv == mask_view(m),
                mask_coords_fit(mv),
                y < m.len(),
                row_len == mv[y as int].len(),
                x <= row_len,
                r@.no_duplicates(),
                forall|p: IVec2| r@.contains(p) ==> in_update_set(mv, p),
                forall|p: IVec2, a: int, b: int| before_cell(a, b, x as int, y as int) && zero_cell(mv, a, b) && near(p, a, b)
                    && !zero_cell(mv, p.x as int, -p.y) ==> r@.contains(p),
            decreases row_len - x,
        {
            assert(row_len < i32::MAX);
            if m[y][x] == 0 {
                assert(zero_cell(mv, x as int, y as int));
                let xi = x as i32;
                let yi = y as i32;
                let mut i: i32 = 0;
                while i < 3
                    invariant
                        mv == mask_view(m),
                        mask_coords_fit(mv),
                        y < m.len(),
                        x < row_len,
                        row_len == mv[y as int].len(),
                        xi == x, yi == y,
                        zero_cell(mv, x as int, y as int),
                        0 <= i <= 3,
                        r@.no_duplicates(),
                        forall|p: IVec2| r@.contains(p) ==> in_update_set(mv, p),
                        forall|p: IVec2, a: int, b: int| before_cell(a, b, x as int, y as int) && zero_cell(mv, a, b) && near(p, a, b)
                            && !zero_cell(mv, p.x as int, -p.y) ==> r@.contains(p),
                        forall|p: IVec2| near(p, x as int, y as int) && p.x - x + 1 < i
                            && !zero_cell(mv, p.x as int, -p.y) ==> r@.contains(p),
                    decreases 3 - i,
                {
                    let mut j: i32 = 0;
                    while j < 3
                        invariant
                            mv == mask_view(m),
                            mask_coords_fit(mv),
                            y < m.len(),
                            x < row_len,
                            row_len == mv[y as int].len(),
                            xi == x, yi == y,
                            zero_cell(mv, x as int, y as int),
                            0 <= i < 3,
                            0 <= j <= 3,
                            r@.no_duplicates(),
                            forall|p: IVec2| r@.contains(p) ==> in_update_set(mv, p),
                            forall|p: IVec2, a: int, b: int| before_cell(a, b, x as int, y as int) && zero_cell(mv, a, b) && near(p, a, b)
                                && !zero_cell(mv, p.x as int, -p.y) ==> r@.contains(p),
                            forall|p: IVec2| near(p, x as int, y as int) && (p.x - x + 1 < i || (p.x - x + 1 == i && -y - p.y + 1 < j))
                                && !zero_cell(mv, p.x as int, -p.y) ==> r@.contains(p),
                        decreases 3 - j,
                    {
                        let p = ivec2(xi + (i - 1), -yi - (j - 1));
                        if !is_zero_at(m, p.x, -p.y) && !contains_offset(&r, p) {
                            proof {
                                assert(zero_cell(mv, x as int, y as int) && near(p, x as int, y as int));
                                assert(in_update_set(mv, p));
                            }
                            let ghost before = r@;
                            r.push(p);
                            proof {
                                assert forall|q: IVec2| r@.contains(q) implies in_update_set(mv, q) by {
                                    if q != p {
                                        let k = choose|k: int| 0 <= k < r@.len() && r@[k] == q;
                                        assert(before[k] == q);
                                        assert(before.contains(q));
                                    }
                                }
                                assert forall|q: IVec2| before.contains(q) implies r@.contains(q) by {
                                    let k = choose|k: int| 0 <= k < before.len() && before[k] == q;
                                    assert(r@[k] == q);
                                }
                                assert(r@[r@.len() - 1] == p);
                            }
                        }
                        j = j + 1;
                    }
                    i = i + 1;
                }
            }
            x = x + 1;
        }
        y = y + 1;
    }
    proof {
        assert forall|p: IVec2| in_update_set(mv, p) implies r@.contains(p) by {
            let (a, b) = choose|a: int, b: int| #[trigger] zero_cell(mv, a, b) && a - 1 <= p.x <= a + 1 && -b - 1 <= p.y <= -b + 1;
            assert(near(p, a, b));
        }
    }
    r
}


fn around_vec() -> (r: Vec<IVec2>)
    ensures
        r@ == around_offsets(),
{
    let r = vec![
        ivec2(-1, -1), ivec2(-1, 0), ivec2(-1, 1), ivec2(0, -1),
        ivec2(0, 1), ivec2(1, -1), ivec2(1, 0), ivec2(1, 1),
    ];
    assert(r@ =~= around_offsets());
    r
}

/// Builds one tile kind from its description.
fn build_tile(j: &JsonTileData, image: u64, layout: u64) -> (t: TileData)
    requires
        j.buildable(),
    ensures
        built_tile(j, image, layout, t@),
{
    let frame_count = match j.frame_count { Some(n) => n, None => 0 };
    let variant_count = match j.variant_count { Some(n) => n, None => 0 };
    let size: (usize, usize) = match &j.multitile_z_mask {
        Some(v) => if v.len() > 0 { (v[0].len(), v.len()) } else { (1, 1) },
        None => (1, 1),
    };
    let origin: (u16, u16) = match j.origin { Some(o) => o, None => (0, 0) };
    let reaction = match j.reaction { Some(r) => r, None => TileNeighborReaction::NoReaction };
    let (columns, rows): (usize, usize) = match reaction {
        TileNeighborReaction::NoReaction => (1, 1),
        TileNeighborReaction::Auto4 => (4, 4),
        _ => (3, 3),
    };
    proof {
        if json_mask(j) is Some {
            let m = json_mask(j).unwrap();
            if m.len() > 0 {
                assert(m[0].len() < i32::MAX);
            }
        }
    }
    let sx = size.0 as u32;
    let sy = size.1 as u32;
    let multi = size.0 > 1 || size.1 > 1;
    let (multitile, rect, to_update) = if multi {
        match &j.multitile_z_mask {
            Some(m) => {
                let z = transform_mask(m, origin);
                let rect = compute_main_layer_rect(m);
                let up = compute_update_set(m);
                (MultitileType::Multitile { z_mask: z }, rect, up)
            },
            None => {
                (MultitileType::Single, (uvec2(0, 0), uvec2(0, 0)), around_vec())
            },
        }
    } else {
        (MultitileType::Single, (uvec2(0, 0), uvec2(sx - 1, sy - 1)), around_vec())
    };
    TileData {
        name: j.name.clone(),
        image,
        atlas_layout: layout,
        frame_count,
        variant_count,
        multitile,
        neighbor_reaction: reaction,
        origin_offset: uvec2(origin.0 as u32, origin.1 as u32),
        size: uvec2(sx, sy),
        atlas_columns: columns,
        atlas_rows: rows,
        main_layer_rect: rect,
        to_update,
    }
}

/// Builds the tile kinds of a description file, in order, all drawn from image
/// `image`; the `i`-th gets atlas layout key `first_layout + i`.
pub fn parse_tile(tiles: &Vec<JsonTileData>, image: u64, first_layout: u64) -> (r: Vec<TileData>)
    requires
        forall|i: int| 0 <= i < tiles.len() ==> (#[trigger] tiles@[i]).buildable(),
        first_layout + tiles.len() <= u64::MAX,
    ensures
        r.len() == tiles.len(),
        forall|i: int| 0 <= i < tiles.len() ==>
            built_tile(&tiles@[i], image, (first_layout + i) as u64, #[trigger] r@[i]@),
{
    let mut r: Vec<TileData> = Vec::new();
    let mut i: usize = 0;
    while i < tiles.len()
        invariant
            forall|k: int| 0 <= k < tiles.len() ==> (#[trigger] tiles@[k]).buildable(),
            first_layout + tiles.len() <= u64::MAX,
            i <= tiles.len(),
            r.len() == i,
            forall|k: int| 0 <= k < i ==> built_tile(&tiles@[k], image, (first_layout + k) as u64, #[trigger] r@[k]@),
        decreases tiles.len() - i,
    {
        let t = build_tile(&tiles[i], image, first_layout + i as u64);
        r.push(t);
        i = i + 1;
    }
    r
}

impl JsonTileData {
    /// The atlas grid the tile's sprites are cut from, in sprites: its size times
    /// its reaction layout, times the frames across and the variants down.
    pub fn atlas_grid(&self) -> (r: (usize, usize))
        requires
            self.buildable(),
            self.atlas_grid_spec().0 <= usize::MAX,
            self.atlas_grid_spec().1 <= usize::MAX,
            json_size(self).0 * json_reaction(self).layout_dims().0 <= usize::MAX,
            json_size(self).1 * json_reaction(self).layout_dims().1 <= usize::MAX,
        ensures
            r.0 == self.atlas_grid_spec().0,
            r.1 == self.atlas_grid_spec().1,
    {
        let size: (usize, usize) = match &self.multitile_z_mask {
            Some(v) => if v.len() > 0 { (v[0].len(), v.len()) } else { (1, 1) },
            None => (1, 1),
        };
        let reaction = match self.reaction { Some(r) => r, None => TileNeighborReaction::NoReaction };
        let (columns, rows): (usize, usize) = match reaction {
            TileNeighborReaction::NoReaction => (1, 1),
            TileNeighborReaction::Auto4 => (4, 4),
            _ => (3, 3),
        };
        let frames = match self.frame_count { Some(n) => n, None => 1 };
        let variants = match self.variant_count { Some(n) => n, None => 1 };
        (size.0 * columns * frames, size.1 * rows * variants)
    }
}


/// A description without animation delays lays out exactly one frame, and one
/// without variant chances exactly one variant: its atlas grid is its size times
/// its reaction layout, the same as with one frame (one variant) given, and it
/// has at least one column and one row.
pub proof fn lemma_one_frame_one_variant_by_default(j: &JsonTileData)
    requires
        j.buildable(),
    ensures
        j.frame_count is None ==> j.atlas_grid_spec().0 == json_size(j).0 * json_reaction(j).layout_dims().0,
        j.frame_count is None ==> j.atlas_grid_spec()
            == (JsonTileData { frame_count: Option::Some(1usize), ..*j }).atlas_grid_spec(),
        j.variant_count is None ==> j.atlas_grid_spec().1 == json_size(j).1 * json_reaction(j).layout_dims().1,
        j.variant_count is None ==> j.atlas_grid_spec()
            == (JsonTileData { variant_count: Option::Some(1usize), ..*j }).atlas_grid_spec(),
        j.frame_count is None ==> j.atlas_grid_spec().0 >= 1,
        j.variant_count is None ==> j.atlas_grid_spec().1 >= 1,
{
    let s = json_size(j);
    let d = json_reaction(j).layout_dims();
    assert(s.0 >= 1 && s.1 >= 1);
    assert(d.0 >= 1 && d.1 >= 1);
    assert(s.0 * d.0 >= 1 && s.1 * d.1 >= 1) by (nonlinear_arith)
        requires s.0 >= 1, s.1 >= 1, d.0 >= 1, d.1 >= 1;
}

/// A tile kind built from a description whose mask sides stay within
/// `MAX_TILE_EXTENT` and whose atlas grid fits in `usize` is well-formed.
pub proof fn lemma_built_tile_wf(j: &JsonTileData, image: u64, layout: u64, t: TileSpec)
    requires
        j.buildable(),
        built_tile(j, image, layout, t),
        json_mask(j) matches Option::Some(m) ==> m.len() <= MAX_TILE_EXTENT
            && forall|y: int| 0 <= y < m.len() ==> #[trigger] m[y].len() <= MAX_TILE_EXTENT,
        crate::tiles::atlas_width(t) * crate::tiles::atlas_height(t) <= usize::MAX,
    ensures
        t.wf(),
{
    let s = json_size(j);
    if s.0 > 1 || s.1 > 1 {
        let m = json_mask(j).unwrap();
        assert forall|i: int| 0 <= i < t.to_update.len() implies {
            &&& -(MAX_TILE_EXTENT as int) - 1 <= #[trigger] t.to_update[i].x <= MAX_TILE_EXTENT + 1
            &&& -(MAX_TILE_EXTENT as int) - 1 <= t.to_update[i].y <= MAX_TILE_EXTENT + 1
        } by {
            let p = t.to_update[i];
            assert(t.to_update.contains(p));
            assert(in_update_set(m, p));
            let (a, b) = choose|a: int, b: int| #[trigger] zero_cell(m, a, b) && a - 1 <= p.x <= a + 1 && -b - 1 <= p.y <= -b + 1;
            assert(m[b].len() <= MAX_TILE_EXTENT);
        }
        assert(m.len() > 0);
        assert(m[0].len() <= MAX_TILE_EXTENT);
        let tm = transformed_mask(m, json_origin(j));
        assert(tm.len() == m.len());
        assert forall|y: int| 0 <= y < tm.len() implies #[trigger] tm[y].len() <= MAX_TILE_EXTENT by {
            assert(m[y].len() <= MAX_TILE_EXTENT);
        }
        if has_zero(m) {
            let (a, b) = choose|a: int, b: int| zero_cell(m, a, b);
            assert(zero_cell(m, a, b));
            let (a1, b1) = choose|x: int, y: int| zero_cell(m, x, y) && x == t.main_layer_rect.1.x;
            assert(m[b1].len() <= MAX_TILE_EXTENT);
            let (a2, b2) = choose|x: int, y: int| zero_cell(m, x, y) && y == t.main_layer_rect.1.y;
            assert(zero_cell(m, a2, b2));
        }
    }
}

impl TileData {
    /// Whether the tile kind is well-formed.
    pub fn check_wf(&self) -> (r: bool)
        ensures
            r == self@.wf(),
    {
        let dims_ok = match self.neighbor_reaction {
            TileNeighborReaction::NoReaction => self.atlas_columns == 1 && self.atlas_rows == 1,
            TileNeighborReaction::Auto4 => self.atlas_columns == 4 && self.atlas_rows == 4,
            TileNeighborReaction::Auto4Corners => false,
            TileNeighborReaction::RevAuto4 => self.atlas_columns == 3 && self.atlas_rows == 3,
        };
        if !dims_ok {
            return false;
        }
        if !(1 <= self.size.x && self.size.x <= MAX_TILE_EXTENT && 1 <= self.size.y && self.size.y <= MAX_TILE_EXTENT
            && self.origin_offset.x <= MAX_TILE_EXTENT && self.origin_offset.y <= MAX_TILE_EXTENT) {
            return false;
        }
        let r0 = self.main_layer_rect.0;
        let r1 = self.main_layer_rect.1;
        if !(r0.x <= r1.x && r1.x < MAX_TILE_EXTENT && r0.y <= r1.y && r1.y < MAX_TILE_EXTENT) {
            return false;
        }
        let multi = self.size.x > 1 || self.size.y > 1;
        match &self.multitile {
            MultitileType::Single => {
                if multi {
                    return false;
                }
            },
            MultitileType::Multitile { z_mask } => {
                if !multi || z_mask.len() != self.size.y as usize || z_mask[0].len() != self.size.x as usize {
                    return false;
                }
                let mut y: usize = 0;
                assert(self@.mask == Option::Some(mask_view(z_mask)));
                while y < z_mask.len()
                    invariant
                        self@.mask == Option::Some(mask_view(z_mask)),
                        y <= z_mask.len(),
                        forall|k: int| 0 <= k < y ==> #[trigger] mask_view(z_mask)[k].len() <= MAX_TILE_EXTENT,
                    decreases z_mask.len() - y,
                {
                    if z_mask[y].len() > MAX_TILE_EXTENT as usize {
                        proof {
                            let m = mask_view(z_mask);
                            assert(self@.mask == Option::Some(m));
                            assert(m[y as int].len() > MAX_TILE_EXTENT);
                        }
                        return false;
                    }
                    y = y + 1;
                }
            },
        }
        let frames = if self.frame_count == 0 { 1 } else { self.frame_count };
        let variants = if self.variant_count == 0 { 1 } else { self.variant_count };
        let ghost wi = crate::tiles::atlas_width(self@);
        let ghost hi = crate::tiles::atlas_height(self@);
        assert(hi >= 1 && wi >= 1) by (nonlinear_arith)
            requires hi == variants * self.atlas_rows * self.size.y, wi == frames * self.atlas_columns * self.size.x,
                variants >= 1, frames >= 1, self.atlas_rows >= 1, self.atlas_columns >= 1, self.size.x >= 1, self.size.y >= 1;
        let w = match frames.checked_mul(self.atlas_columns) {
            Some(a) => match a.checked_mul(self.size.x as usize) {
                Some(b) => b,
                None => {
                    assert(wi * hi > usize::MAX) by (nonlinear_arith)
                        requires wi == a * self.size.x, a * self.size.x > usize::MAX, hi >= 1;
                    return false;
                },
            },
            None => {
                assert(wi * hi > usize::MAX) by (nonlinear_arith)
                    requires wi == frames * self.atlas_columns * self.size.x,
                        frames * self.atlas_columns > usize::MAX, self.size.x >= 1, hi >= 1;
                return false;
            },
        };
        let h = match variants.checked_mul(self.atlas_rows) {
            Some(a) => match a.checked_mul(self.size.y as usize) {
                Some(b) => b,
                None => {
                    assert(wi * hi > usize::MAX) by (nonlinear_arith)
                        requires hi == a * self.size.y, a * self.size.y > usize::MAX, wi >= 1;
                    return false;
                },
            },
            None => {
                assert(wi * hi > usize::MAX) by (nonlinear_arith)
                    requires hi == variants * self.atlas_rows * self.size.y,
                        variants * self.atlas_rows > usize::MAX, self.size.y >= 1, wi >= 1;
                return false;
            },
        };
        if w.checked_mul(h).is_none() {
            return false;
        }
        let mut i: usize = 0;
        while i < self.to_update.len()
            invariant
                i <= self.to_update.len(),
                forall|k: int| 0 <= k < i ==> {
                    &&& -(MAX_TILE_EXTENT as int) - 1 <= #[trigger] self.to_update@[k].x <= MAX_TILE_EXTENT + 1
                    &&& -(MAX_TILE_EXTENT as int) - 1 <= self.to_update@[k].y <= MAX_TILE_EXTENT + 1
                },
            decreases self.to_update.len() - i,
        {
            let p = self.to_update[i];
            if p.x < -(MAX_TILE_EXTENT as i32) - 1 || p.x > MAX_TILE_EXTENT as i32 + 1
                || p.y < -(MAX_TILE_EXTENT as i32) - 1 || p.y > MAX_TILE_EXTENT as i32 + 1 {
                assert(self@.to_update[i as int] == p);
                return false;
            }
            i = i + 1;
        }
        true
    }
}

} // verus!
