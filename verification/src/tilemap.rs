//! A map of tile ids: tilesets hold tile kinds (single tiles, multi-cell tile
//! origins that list their parts, and the parts that point back to their origin);
//! the map stores a `(tileset, tile)` id per cell and the sprite of each cell.
use vstd::prelude::*;
use crate::geom::{IVec2, UVec2, ivec2};

verus! {

/// A tile kind of a tileset.
pub enum Tile {
    Singletile,
    /// The origin of a multi-cell tile, with the offset and tile id of each part.
    MultitileOrigin { parts_offsets_ids: Vec<(IVec2, usize)> },
    /// A part of a multi-cell tile, with the offset and tile id of its origin.
    Multitile { origin_offset: IVec2, origin_id: usize },
}

/// The plain contents of a tile kind.
pub enum TileShape {
    Singletile,
    MultitileOrigin { parts: Seq<(IVec2, usize)> },
    Multitile { origin_offset: IVec2, origin_id: usize },
}

impl View for Tile {
    type V = TileShape;

    open spec fn view(&self) -> TileShape {
        match self {
            Tile::Singletile => TileShape::Singletile,
            Tile::MultitileOrigin { parts_offsets_ids } => TileShape::MultitileOrigin { parts: parts_offsets_ids@ },
            Tile::Multitile { origin_offset, origin_id } => TileShape::Multitile {
                origin_offset: *origin_offset,
                origin_id: *origin_id,
            },
        }
    }
}

impl Default for Tile {
    fn default() -> (r: Self)
        ensures
            r@ == TileShape::Singletile,
    {
        Tile::Singletile
    }
}

/// A tileset: the keys of its atlas layout and texture, and its tile kinds by id.
pub struct TileSet {
    pub layout: u64,
    pub texture: u64,
    pub tiles: Vec<Tile>,
}

/// The plain contents of a tileset.
pub struct TileSetSpec {
    pub layout: u64,
    pub texture: u64,
    pub tiles: Seq<TileShape>,
}

impl View for TileSet {
    type V = TileSetSpec;

    open spec fn view(&self) -> TileSetSpec {
        TileSetSpec {
            layout: self.layout,
            texture: self.texture,
            tiles: self.tiles@.map_values(|t: Tile| t@),
        }
    }
}

/// The tilesets in use, by id; tileset 0 draws empty cells.
pub struct TileSetCollection {
    pub tilesets: Vec<TileSet>,
}

impl View for TileSetCollection {
    type V = Seq<TileSetSpec>;

    open spec fn view(&self) -> Seq<TileSetSpec> {
        self.tilesets@.map_values(|s: TileSet| s@)
    }
}

/// The tile kind with id `tile_id` in tileset `tileset_id`, if both exist.
pub open spec fn tile_at(c: Seq<TileSetSpec>, tileset_id: int, tile_id: int) -> Option<TileShape> {
    if 0 <= tileset_id < c.len() && 0 <= tile_id < c[tileset_id].tiles.len() {
        Option::Some(c[tileset_id].tiles[tile_id])
    } else {
        Option::None
    }
}

impl TileSetCollection {
    /// A collection holding tileset 0, drawn from `layout` and `texture`, whose one
    /// tile kind is a single tile.
    pub fn init(layout: u64, texture: u64) -> (r: Self)
        ensures
            r@ == seq![TileSetSpec { layout, texture, tiles: seq![TileShape::Singletile] }],
    {
        let r = TileSetCollection {
            tilesets: vec![TileSet { texture, layout, tiles: vec![Tile::Singletile] }],
        };
        proof {
            assert(r.tilesets@[0]@.tiles =~= seq![TileShape::Singletile]);
            assert(r@ =~= seq![TileSetSpec { layout, texture, tiles: seq![TileShape::Singletile] }]);
        }
        r
    }

    /// Adds an empty tileset drawn from `atlas_layout` and `texture`; returns its id.
    pub fn register_new_tileset(&mut self, atlas_layout: u64, texture: u64) -> (id: usize)
        requires
            old(self)@.len() < usize::MAX,
        ensures
            final(self)@ == old(self)@.push(TileSetSpec { layout: atlas_layout, texture, tiles: Seq::empty() }),
            id == old(self)@.len(),
    {
        let ts = TileSet { layout: atlas_layout, texture, tiles: Vec::new() };
        proof {
            assert(ts@.tiles =~= Seq::<TileShape>::empty());
        }
        self.tilesets.push(ts);
        proof {
            assert(self@ =~= old(self)@.push(TileSetSpec { layout: atlas_layout, texture, tiles: Seq::empty() }));
        }
        self.tilesets.len() - 1
    }

    /// Replaces the tile kinds of tileset `tileset_id`; false (and nothing changed)
    /// when there is no such tileset.
    pub fn set_tiles(&mut self, tileset_id: usize, tiles: Vec<Tile>) -> (r: bool)
        ensures
            r == (tileset_id < old(self)@.len()),
            r ==> final(self)@ == old(self)@.update(tileset_id as int, TileSetSpec {
                tiles: tiles@.map_values(|t: Tile| t@),
                ..old(self)@[tileset_id as int]
            }),
            !r ==> final(self)@ == old(self)@,
    {
        if tileset_id >= self.tilesets.len() {
            return false;
        }
        let ghost tv = tiles@.map_values(|t: Tile| t@);
        let mut ts = self.tilesets.remove(tileset_id);
        ts.tiles = tiles;
        self.tilesets.insert(tileset_id, ts);
        proof {
            assert(self@ =~= old(self)@.update(tileset_id as int, TileSetSpec { tiles: tv, ..old(self)@[tileset_id as int] }));
        }
        true
    }

    /// The tile kind `tile_id` of tileset `tileset_id`, if both exist.
    pub fn get_tile(&self, tileset_id: usize, tile_id: usize) -> (r: Option<&Tile>)
        ensures
            r matches Option::Some(t) ==> tile_at(self@, tileset_id as int, tile_id as int) == Option::Some(t@),
            r is None ==> tile_at(self@, tileset_id as int, tile_id as int) is None,
    {
        if tileset_id < self.tilesets.len() {
            let ts = &self.tilesets[tileset_id];
            if tile_id < ts.tiles.len() {
                return Some(&ts.tiles[tile_id]);
            }
        }
        None
    }
}

/// A tileset just registered has the returned id, and tiles set on it are
/// what a lookup returns.
pub proof fn lemma_registered_tiles_found(c: Seq<TileSetSpec>, layout: u64, texture: u64, tiles: Seq<TileShape>, k: int)
    requires
        0 <= k < tiles.len(),
    ensures
        ({
            let c1 = c.push(TileSetSpec { layout, texture, tiles: Seq::empty() });
            let id = c.len() as int;
            let c2 = c1.update(id, TileSetSpec { tiles, ..c1[id] });
            tile_at(c2, id, k) == Option::Some(tiles[k]) && tile_at(c1, id, k) is None
        }),
{
}

/// A texture command: show sprite `index` of atlas `layout` drawn from `texture` on sprite `entity`.
#[derive(Clone, Copy, PartialEq, Eq, Debug, Structural)]
pub struct TextureCommand {
    pub entity: u64,
    pub texture: u64,
    pub layout: u64,
    pub index: usize,
}

/// The command showing sprite `index` of tileset `set` on sprite `e`.
pub open spec fn texture_cmd(e: u64, set: TileSetSpec, index: usize) -> TextureCommand {
    TextureCommand { entity: e, texture: set.texture, layout: set.layout, index }
}

/// A map of `size` cells (x right, y up from the lower left corner), with each
/// cell's sprite and its `(tileset, tile)` id.
pub struct TileMap {
    size: UVec2,
    tile_entities: Vec<Vec<u64>>,
    tile_ids: Vec<Vec<(usize, usize)>>,
}

/// Cell (x, y) lies inside a map of `size`.
pub open spec fn in_map(size: UVec2, x: int, y: int) -> bool {
    0 <= x < size.x && 0 <= y < size.y
}

/// The id column `x` with `v` inserted at row `y` (the rows above move up one).
pub open spec fn insert_id(ids: Seq<Seq<(usize, usize)>>, x: int, y: int, v: (usize, usize)) -> Seq<Seq<(usize, usize)>> {
    ids.update(x, ids[x].insert(y, v))
}

impl TileMap {
    /// The map's size.
    pub closed spec fn size_spec(&self) -> UVec2 {
        self.size
    }

    /// The sprite of each cell, by column.
    pub closed spec fn entities(&self) -> Seq<Seq<u64>> {
        self.tile_entities@.map_values(|r: Vec<u64>| r@)
    }

    /// The id columns.
    pub closed spec fn ids(&self) -> Seq<Seq<(usize, usize)>> {
        self.tile_ids@.map_values(|r: Vec<(usize, usize)>| r@)
    }

    /// Column `x` as stored.
    proof fn lemma_column(&self, x: int)
        requires
            0 <= x < self.tile_entities@.len() || 0 <= x < self.tile_ids@.len(),
        ensures
            0 <= x < self.tile_entities@.len() ==> self.entities()[x] == self.tile_entities@[x]@,
            0 <= x < self.tile_ids@.len() ==> self.ids()[x] == self.tile_ids@[x]@,
            self.entities().len() == self.tile_entities@.len(),
            self.ids().len() == self.tile_ids@.len(),
    {
    }

    /// The map is consistent: one sprite per cell, and each id column spans at
    /// least the map's height.
    pub open spec fn wf(&self) -> bool {
        map_wf(self.size_spec(), self.entities(), self.ids())
    }
}

/// Sprite and id columns that fit a map of `size`.
pub open spec fn map_wf(size: UVec2, ents: Seq<Seq<u64>>, ids: Seq<Seq<(usize, usize)>>) -> bool {
    &&& size.x <= i32::MAX && size.y <= i32::MAX
    &&& ents.len() == size.x && ids.len() == size.x
    &&& forall|x: int| 0 <= x < size.x ==> #[trigger] ents[x].len() == size.y
    &&& forall|x: int| 0 <= x < size.x ==> #[trigger] ids[x].len() >= size.y
}

/// Placing the parts of a multi-cell tile with origin at `pos`: each part inside
/// the map gets tile id `(tileset_id, id)` inserted and shows sprite `id`.
pub open spec fn place_parts(size: UVec2, ents: Seq<Seq<u64>>, ids: Seq<Seq<(usize, usize)>>, pos: UVec2,
    tileset_id: usize, set: TileSetSpec, parts: Seq<(IVec2, usize)>) -> (Seq<Seq<(usize, usize)>>, Seq<TextureCommand>)
    decreases parts.len(),
{
    if parts.len() == 0 {
        (ids, Seq::empty())
    } else {
        let prev = place_parts(size, ents, ids, pos, tileset_id, set, parts.drop_last());
        let p = parts.last();
        let px = pos.x + p.0.x;
        let py = pos.y + p.0.y;
        if in_map(size, px, py) {
            (insert_id(prev.0, px, py, (tileset_id, p.1)), prev.1.push(texture_cmd(ents[px][py], set, p.1)))
        } else {
            prev
        }
    }
}

/// Every part of a multi-cell tile with origin at `pos` lies inside the map.
pub open spec fn parts_inside(size: UVec2, pos: UVec2, parts: Seq<(IVec2, usize)>) -> bool {
    forall|k: int| 0 <= k < parts.len() ==> in_map(size, pos.x + (#[trigger] parts[k]).0.x, pos.y + parts[k].0.y)
}

/// Every part offset added to `pos` stays within `i32`.
pub open spec fn parts_fit(pos: UVec2, parts: Seq<(IVec2, usize)>) -> bool {
    forall|k: int| 0 <= k < parts.len() ==> i32::MIN <= pos.x + (#[trigger] parts[k]).0.x <= i32::MAX
        && i32::MIN <= pos.y + parts[k].0.y <= i32::MAX
}

/// Setting tile `(tileset_id, tile_id)` at `pos`: outside the map's columns
/// nothing happens; a single tile goes only on a cell whose id is (0, 0) and shows
/// sprite 0; a part alone is refused; an origin goes only where all its parts lie
/// inside the map, and then every part and the origin get their ids and sprites.
/// The result tells whether the tile was set, and gives the new ids and commands.
pub open spec fn set_tile_spec(size: UVec2, ents: Seq<Seq<u64>>, ids: Seq<Seq<(usize, usize)>>, pos: UVec2,
    c: Seq<TileSetSpec>, tileset_id: usize, tile_id: usize) -> (bool, Seq<Seq<(usize, usize)>>, Seq<TextureCommand>) {
    let x = pos.x as int;
    let y = pos.y as int;
    let set = c[tileset_id as int];
    if x >= ents.len() {
        (false, ids, Seq::empty())
    } else {
        let e = ents[x][y];
        match tile_at(c, tileset_id as int, tile_id as int).unwrap() {
            TileShape::Singletile => {
                if y < ids[x].len() && ids[x][y] != (0usize, 0usize) {
                    (false, ids, Seq::empty())
                } else {
                    (true, insert_id(ids, x, y, (tileset_id, tile_id)), seq![texture_cmd(e, set, 0)])
                }
            },
            TileShape::Multitile { .. } => (false, ids, Seq::empty()),
            TileShape::MultitileOrigin { parts } => {
                if !parts_inside(size, pos, parts) {
                    (false, ids, Seq::empty())
                } else {
                    let p = place_parts(size, ents, ids, pos, tileset_id, set, parts);
                    (true, insert_id(p.0, x, y, (tileset_id, tile_id)), p.1.push(texture_cmd(e, set, tile_id)))
                }
            },
        }
    }
}

/// Setting a tile does not panic: its tileset and tile exist, a cell inside the
/// map's columns lies inside its height, and the part offsets stay within `i32`.
pub open spec fn set_tile_ok(size: UVec2, pos: UVec2, c: Seq<TileSetSpec>, tileset_id: usize, tile_id: usize) -> bool {
    &&& tile_at(c, tileset_id as int, tile_id as int) is Some
    &&& pos.x < size.x ==> pos.y < size.y
    &&& pos.x < size.x ==> match tile_at(c, tileset_id as int, tile_id as int).unwrap() {
        TileShape::MultitileOrigin { parts } => parts_fit(pos, parts),
        _ => true,
    }
}

/// Clearing the parts of a multi-cell tile with origin at `pos`: for each part
/// inside the map, the part shows sprite 0 of tileset 0 and id (0, 0) is inserted
/// at the origin's cell.
pub open spec fn clear_parts(size: UVec2, ents: Seq<Seq<u64>>, ids: Seq<Seq<(usize, usize)>>, pos: UVec2,
    set0: TileSetSpec, parts: Seq<(IVec2, usize)>) -> (Seq<Seq<(usize, usize)>>, Seq<TextureCommand>)
    decreases parts.len(),
{
    if parts.len() == 0 {
        (ids, Seq::empty())
    } else {
        let prev = clear_parts(size, ents, ids, pos, set0, parts.drop_last());
        let p = parts.last();
        let px = pos.x + p.0.x;
        let py = pos.y + p.0.y;
        if in_map(size, px, py) {
            (insert_id(prev.0, pos.x as int, pos.y as int, (0, 0)), prev.1.push(texture_cmd(ents[px][py], set0, 0)))
        } else {
            prev
        }
    }
}

/// Removing the tile at `pos`: a cell with id (0, 0) is left alone; a single tile
/// shows sprite 0 of tileset 0 and gets id (0, 0) inserted; a part is not removed
/// by itself; an origin clears its parts and itself. The result tells whether a
/// tile was removed, and gives the new ids and commands.
pub open spec fn remove_tile_spec(size: UVec2, ents: Seq<Seq<u64>>, ids: Seq<Seq<(usize, usize)>>, pos: UVec2,
    c: Seq<TileSetSpec>) -> (bool, Seq<Seq<(usize, usize)>>, Seq<TextureCommand>) {
    let x = pos.x as int;
    let y = pos.y as int;
    let id = ids[x][y];
    let e = ents[x][y];
    if id == (0usize, 0usize) {
        (false, ids, Seq::empty())
    } else {
        match tile_at(c, id.0 as int, id.1 as int).unwrap() {
            TileShape::Singletile => (true, insert_id(ids, x, y, (0, 0)), seq![texture_cmd(e, c[0], 0)]),
            TileShape::Multitile { .. } => (false, ids, Seq::empty()),
            TileShape::MultitileOrigin { parts } => {
                let p = clear_parts(size, ents, ids, pos, c[0], parts);
                (true, insert_id(p.0, x, y, (0, 0)), p.1.push(texture_cmd(e, c[0], 0)))
            },
        }
    }
}

/// Removing the tile at `pos` does not panic: the cell lies inside the map,
/// tileset 0 exists, the id stored there names a tile kind, a part's origin
/// inside the map names a tile kind of tileset 1, and offsets stay within `i32`.
pub open spec fn remove_tile_ok(size: UVec2, ids: Seq<Seq<(usize, usize)>>, pos: UVec2, c: Seq<TileSetSpec>) -> bool {
    let id = ids[pos.x as int][pos.y as int];
    &&& in_map(size, pos.x as int, pos.y as int)
    &&& id != (0usize, 0usize) ==> {
        &&& c.len() > 0
        &&& tile_at(c, id.0 as int, id.1 as int) is Some
        &&& match tile_at(c, id.0 as int, id.1 as int).unwrap() {
            TileShape::Singletile => true,
            TileShape::Multitile { origin_offset, origin_id } => {
                &&& i32::MIN <= pos.x + origin_offset.x <= i32::MAX
                &&& i32::MIN <= pos.y + origin_offset.y <= i32::MAX
                &&& in_map(size, pos.x + origin_offset.x, pos.y + origin_offset.y) ==> tile_at(c, 1, origin_id as int) is Some
            },
            TileShape::MultitileOrigin { parts } => parts_fit(pos, parts),
        }
    }
}

impl TileMap {
    /// A map of `size` cells drawn by the sprites `tile_entities` (by column), every
    /// cell holding id (0, 0). Tileset 0 of `collection` draws the cells.
    pub fn init_for(size: UVec2, tile_entities: Vec<Vec<u64>>, collection: &TileSetCollection) -> (r: TileMap)
        requires
            size.x <= i32::MAX,
            size.y <= i32::MAX,
            collection@.len() > 0,
            tile_entities@.len() == size.x,
            forall|x: int| 0 <= x < size.x ==> #[trigger] tile_entities@[x].len() == size.y,
        ensures
            r.wf(),
            r.size_spec() == size,
            r.entities() == tile_entities@.map_values(|v: Vec<u64>| v@),
            forall|x: int, y: int| in_map(size, x, y) ==> #[trigger] r.ids()[x][y] == (0usize, 0usize),
            forall|x: int| 0 <= x < size.x ==> #[trigger] r.ids()[x].len() == size.y,
    {
        let ghost te = tile_entities@;
        let mut tile_ids: Vec<Vec<(usize, usize)>> = Vec::new();
        let mut x: u32 = 0;
        while x < size.x
            invariant
                x <= size.x,
                tile_ids@.len() == x,
                forall|i: int| 0 <= i < x ==> (#[trigger] tile_ids@[i]).len() == size.y,
                forall|i: int, j: int| 0 <= i < x && 0 <= j < size.y ==> #[trigger] tile_ids@[i]@[j] == (0usize, 0usize),
            decreases size.x - x,
        {
            let mut row: Vec<(usize, usize)> = Vec::new();
            let mut y: u32 = 0;
            while y < size.y
                invariant
                    y <= size.y,
                    row@.len() == y,
                    forall|j: int| 0 <= j < y ==> #[trigger] row@[j] == (0usize, 0usize),
                decreases size.y - y,
            {
                row.push((0, 0));
                y = y + 1;
            }
            tile_ids.push(row);
            x = x + 1;
        }
        let r = TileMap { size, tile_entities, tile_ids };
        proof {
            assert forall|i: int, j: int| in_map(size, i, j) implies #[trigger] r.ids()[i][j] == (0usize, 0usize) by {
                r.lemma_column(i);
                assert(r.tile_ids@[i]@[j] == (0usize, 0usize));
            }
            assert forall|i: int| 0 <= i < size.x implies #[trigger] r.entities()[i].len() == size.y by {
                r.lemma_column(i);
                assert(te[i].len() == size.y);
            }
            assert forall|i: int| 0 <= i < size.x implies #[trigger] r.ids()[i].len() >= size.y by {
                r.lemma_column(i);
            }
            assert forall|i: int| 0 <= i < size.x implies #[trigger] r.ids()[i].len() == size.y by {
                r.lemma_column(i);
            }
        }
        r
    }

    /// The map's size.
    pub fn size(&self) -> (r: UVec2)
        ensures
            r == self.size_spec(),
    {
        self.size
    }

    /// Whether `position` lies inside the map.
    fn in_bounds(&self, position: &UVec2) -> (r: bool)
        ensures
            r == in_map(self.size_spec(), position.x as int, position.y as int),
    {
        position.x < self.size.x && position.y < self.size.y
    }

    /// Whether `position` lies inside the map.
    fn in_bounds_i(&self, position: &IVec2) -> (r: bool)
        requires
            self.wf(),
        ensures
            r == in_map(self.size_spec(), position.x as int, position.y as int),
    {
        position.x >= 0 && position.y >= 0 && position.x < self.size.x as i32 && position.y < self.size.y as i32
    }

    /// The id stored at `position`, if its column and row exist.
    pub fn get_tile(&self, position: UVec2) -> (r: Option<&(usize, usize)>)
        ensures
            r matches Option::Some(v) ==> position.x < self.ids().len() && position.y < self.ids()[position.x as int].len()
                && *v == self.ids()[position.x as int][position.y as int],
            r is None ==> !(position.x < self.ids().len() && position.y < self.ids()[position.x as int].len()),
    {
        if (position.x as usize) < self.tile_ids.len() {
            let row = &self.tile_ids[position.x as usize];
            if (position.y as usize) < row.len() {
                return Some(&row[position.y as usize]);
            }
        }
        None
    }

    /// Inserts id `v` at row `y` of column `x`.
    fn insert_at(&mut self, x: usize, y: usize, v: (usize, usize))
        requires
            old(self).wf(),
            in_map(old(self).size_spec(), x as int, y as int),
        ensures
            final(self).ids() == insert_id(old(self).ids(), x as int, y as int, v),
            final(self).entities() == old(self).entities(),
            final(self).size_spec() == old(self).size_spec(),
            final(self).wf(),
    {
        let ghost goal = insert_id(old(self).ids(), x as int, y as int, v);
        assert(self.tile_ids@[x as int]@.len() >= self.size.y);
        let mut row = self.tile_ids.remove(x);
        row.insert(y, v);
        self.tile_ids.insert(x, row);
        proof {
            assert forall|i: int| 0 <= i < self.ids().len() implies #[trigger] self.ids()[i] =~= goal[i] by {
                if i != x {
                    assert(self.tile_ids@[i] == old(self).tile_ids@[i]);
                }
            }
            assert(self.ids() =~= goal);
        }
    }

    /// Sets tile `(tileset_id, tile_id)` at `position` (see `set_tile_spec`),
    /// appending its texture commands to `commands`; returns whether it was set.
    pub fn set_tile(&mut self, commands: &mut Vec<TextureCommand>, position: UVec2, collection: &TileSetCollection,
        tileset_id: usize, tile_id: usize) -> (r: bool)
        requires
            old(self).wf(),
            set_tile_ok(old(self).size_spec(), position, collection@, tileset_id, tile_id),
        ensures
            ({
                let s = set_tile_spec(old(self).size_spec(), old(self).entities(), old(self).ids(), position,
                    collection@, tileset_id, tile_id);
                &&& r == s.0
                &&& final(self).ids() == s.1
                &&& final(commands)@ == old(commands)@ + s.2
            }),
            final(self).wf(),
            final(self).size_spec() == old(self).size_spec(),
            final(self).entities() == old(self).entities(),
    {
        let ghost size = self.size;
        let ghost ents = self.entities();
        let ghost c = collection@;
        let tileset = &collection.tilesets[tileset_id];
        let ghost set = tileset@;
        let tile = &tileset.tiles[tile_id];
        assert(tile@ == tile_at(c, tileset_id as int, tile_id as int).unwrap());
        if position.x as usize >= self.tile_entities.len() {
            return false;
        }
        let x = position.x as usize;
        let y = position.y as usize;
        proof { self.lemma_column(x as int); }
        let e = self.tile_entities[x][y];
        let px = position.x as i32;
        let py = position.y as i32;
        match tile {
            Tile::Singletile => {
                match self.get_tile(position) {
                    Some(v) => {
                        if v.0 != 0 || v.1 != 0 {
                            return false;
                        }
                    },
                    None => {},
                }
                commands.push(TextureCommand { entity: e, texture: tileset.texture, layout: tileset.layout, index: 0 });
                self.insert_at(x, y, (tileset_id, tile_id));
                true
            },
            Tile::Multitile { .. } => false,
            Tile::MultitileOrigin { parts_offsets_ids } => {
                let ghost parts = parts_offsets_ids@;
                let mut k: usize = 0;
                while k < parts_offsets_ids.len()
                    invariant
                        self.wf(),
                        size == self.size_spec(),
                        parts == parts_offsets_ids@,
                        parts_fit(position, parts),
                        position.x < size.x, position.y < size.y,
                        px == position.x, py == position.y,
                        tile@ == (TileShape::MultitileOrigin { parts }),
                        tile@ == tile_at(c, tileset_id as int, tile_id as int).unwrap(),
                        c == collection@,
                        ents == self.entities(),
                        self.ids() == old(self).ids(),
                        commands@ == old(commands)@,
                        k <= parts.len(),
                        forall|i: int| 0 <= i < k ==> in_map(size, position.x + (#[trigger] parts[i]).0.x, position.y + parts[i].0.y),
                    decreases parts.len() - k,
                {
                    let (offset, _id) = parts_offsets_ids[k];
                    assert(parts[k as int].0 == offset);
                    let part = ivec2(px + offset.x, py + offset.y);
                    if !self.in_bounds_i(&part) {
                        assert(!in_map(size, position.x + parts[k as int].0.x, position.y + parts[k as int].0.y));
                        assert(!parts_inside(size, position, parts));
                        assert(tile@ == TileShape::MultitileOrigin { parts });
                        assert(old(commands)@ + Seq::<TextureCommand>::empty() =~= old(commands)@);
                        return false;
                    }
                    k = k + 1;
                }
                let ghost ids0 = self.ids();
                let ghost cmds0 = commands@;
                proof {
                    assert(parts.take(0) =~= Seq::<(IVec2, usize)>::empty());
                }
                let mut k: usize = 0;
                while k < parts_offsets_ids.len()
                    invariant
                        self.wf(),
                        size == self.size_spec(),
                        ents == self.entities(),
                        parts == parts_offsets_ids@,
                        parts_fit(position, parts),
                        parts_inside(size, position, parts),
                        px == position.x, py == position.y,
                        set == tileset@,
                        k <= parts.len(),
                        self.ids() == place_parts(size, ents, ids0, position, tileset_id, set, parts.take(k as int)).0,
                        commands@ == cmds0 + place_parts(size, ents, ids0, position, tileset_id, set, parts.take(k as int)).1,
                    decreases parts.len() - k,
                {
                    let (offset, id) = parts_offsets_ids[k];
                    proof {
                        assert(parts[k as int] == (offset, id));
                        assert(parts.take(k + 1).drop_last() =~= parts.take(k as int));
                        assert(in_map(size, position.x + parts[k as int].0.x, position.y + parts[k as int].0.y));
                    }
                    let part = ivec2(px + offset.x, py + offset.y);
                    if self.in_bounds_i(&part) {
                        proof { self.lemma_column(part.x as int); }
                        let pe = self.tile_entities[part.x as usize][part.y as usize];
                        commands.push(TextureCommand { entity: pe, texture: tileset.texture, layout: tileset.layout, index: id });
                        self.insert_at(part.x as usize, part.y as usize, (tileset_id, id));
                    }
                    k = k + 1;
                    proof {
                        assert(commands@ =~= cmds0 + place_parts(size, ents, ids0, position, tileset_id, set, parts.take(k as int)).1);
                    }
                }
                proof {
                    assert(parts.take(k as int) =~= parts);
                }
                commands.push(TextureCommand { entity: e, texture: tileset.texture, layout: tileset.layout, index: tile_id });
                self.insert_at(x, y, (tileset_id, tile_id));
                true
            },
        }
    }

    /// Removes the tile at `position` (see `remove_tile_spec`), appending its
    /// texture commands to `commands`; returns whether a tile was removed.
    pub fn remove_tile(&mut self, position: UVec2, collection: &TileSetCollection, commands: &mut Vec<TextureCommand>) -> (r: bool)
        requires
            old(self).wf(),
            remove_tile_ok(old(self).size_spec(), old(self).ids(), position, collection@),
        ensures
            ({
                let s = remove_tile_spec(old(self).size_spec(), old(self).entities(), old(self).ids(), position, collection@);
                &&& r == s.0
                &&& final(self).ids() == s.1
                &&& final(commands)@ == old(commands)@ + s.2
            }),
            final(self).wf(),
            final(self).size_spec() == old(self).size_spec(),
            final(self).entities() == old(self).entities(),
    {
        let ghost size = self.size;
        let ghost ents = self.entities();
        let ghost c = collection@;
        let x = position.x as usize;
        let y = position.y as usize;
        proof { self.lemma_column(x as int); }
        let e = self.tile_entities[x][y];
        let tile_id = self.tile_ids[x][y];
        let px = position.x as i32;
        let py = position.y as i32;
        if tile_id.0 == 0 && tile_id.1 == 0 {
            return false;
        }
        let tile = &collection.tilesets[tile_id.0].tiles[tile_id.1];
        assert(tile@ == tile_at(c, tile_id.0 as int, tile_id.1 as int).unwrap());
        let tileset = &collection.tilesets[0];
        let ghost set0 = tileset@;
        match tile {
            Tile::Singletile => {
                commands.push(TextureCommand { entity: e, texture: tileset.texture, layout: tileset.layout, index: 0 });
                self.insert_at(x, y, (0, 0));
                true
            },
            Tile::Multitile { origin_offset, origin_id } => {
                let origin = ivec2(px + origin_offset.x, py + origin_offset.y);
                if !self.in_bounds_i(&origin) {
                    return false;
                }
                let _origin_tile = &collection.tilesets[1].tiles[*origin_id];
                false
            },
            Tile::MultitileOrigin { parts_offsets_ids } => {
                let ghost parts = parts_offsets_ids@;
                let ghost ids0 = self.ids();
                let ghost cmds0 = commands@;
                proof {
                    assert(parts.take(0) =~= Seq::<(IVec2, usize)>::empty());
                }
                let mut k: usize = 0;
                while k < parts_offsets_ids.len()
                    invariant
                        self.wf(),
                        size == self.size_spec(),
                        ents == self.entities(),
                        parts == parts_offsets_ids@,
                        parts_fit(position, parts),
                        in_map(size, position.x as int, position.y as int),
                        x == position.x, y == position.y,
                        px == position.x, py == position.y,
                        set0 == tileset@,
                        k <= parts.len(),
                        self.ids() == clear_parts(size, ents, ids0, position, set0, parts.take(k as int)).0,
                        commands@ == cmds0 + clear_parts(size, ents, ids0, position, set0, parts.take(k as int)).1,
                    decreases parts.len() - k,
                {
                    let (offset, _id) = parts_offsets_ids[k];
                    proof {
                        assert(parts[k as int].0 == offset);
                        assert(parts.take(k + 1).drop_last() =~= parts.take(k as int));
                    }
                    let part = ivec2(px + offset.x, py + offset.y);
                    if self.in_bounds_i(&part) {
                        proof { self.lemma_column(part.x as int); }
                        let pe = self.tile_entities[part.x as usize][part.y as usize];
                        commands.push(TextureCommand { entity: pe, texture: tileset.texture, layout: tileset.layout, index: 0 });
                        self.insert_at(x, y, (0, 0));
                    }
                    k = k + 1;
                    proof {
                        assert(commands@ =~= cmds0 + clear_parts(size, ents, ids0, position, set0, parts.take(k as int)).1);
                    }
                }
                proof {
                    assert(parts.take(k as int) =~= parts);
                }
                commands.push(TextureCommand { entity: e, texture: tileset.texture, layout: tileset.layout, index: 0 });
                self.insert_at(x, y, (0, 0));
                true
            },
        }
    }
}

/// Once a single tile is set on a cell, that cell holds its id.
pub proof fn lemma_set_single_then_get(size: UVec2, ents: Seq<Seq<u64>>, ids: Seq<Seq<(usize, usize)>>, pos: UVec2,
    c: Seq<TileSetSpec>, tileset_id: usize, tile_id: usize)
    requires
        map_wf(size, ents, ids),
        set_tile_ok(size, pos, c, tileset_id, tile_id),
        tile_at(c, tileset_id as int, tile_id as int) == Option::Some(TileShape::Singletile),
        set_tile_spec(size, ents, ids, pos, c, tileset_id, tile_id).0,
    ensures
        set_tile_spec(size, ents, ids, pos, c, tileset_id, tile_id).1[pos.x as int][pos.y as int] == (tileset_id, tile_id),
{
}

/// A single tile set on an empty cell inside the map is set, and removing it
/// leaves id (0, 0) on the cell.
pub proof fn lemma_set_then_remove_single(size: UVec2, ents: Seq<Seq<u64>>, ids: Seq<Seq<(usize, usize)>>, pos: UVec2,
    c: Seq<TileSetSpec>, tileset_id: usize, tile_id: usize)
    requires
        map_wf(size, ents, ids),
        in_map(size, pos.x as int, pos.y as int),
        ids[pos.x as int][pos.y as int] == (0usize, 0usize),
        tile_at(c, tileset_id as int, tile_id as int) == Option::Some(TileShape::Singletile),
        (tileset_id, tile_id) != (0usize, 0usize),
    ensures
        ({
            let s = set_tile_spec(size, ents, ids, pos, c, tileset_id, tile_id);
            let r = remove_tile_spec(size, ents, s.1, pos, c);
            &&& s.0
            &&& r.0
            &&& r.1[pos.x as int][pos.y as int] == (0usize, 0usize)
        }),
{
}

} // verus!
