use starpressure::geom::{ivec2, uvec2};
use starpressure::tilemap::{TextureCommand, Tile, TileMap, TileSet, TileSetCollection};

fn collection() -> TileSetCollection {
    let mut c = TileSetCollection::init(1, 2);
    let id = c.register_new_tileset(10, 20);
    assert_eq!(id, 1);
    let ok = c.set_tiles(
        1,
        vec![
            Tile::Singletile,
            Tile::Singletile,
            Tile::MultitileOrigin { parts_offsets_ids: vec![(ivec2(1, 0), 3)] },
            Tile::Multitile { origin_offset: ivec2(-1, 0), origin_id: 2 },
        ],
    );
    assert!(ok);
    c
}

fn map(c: &TileSetCollection) -> TileMap {
    let entities: Vec<Vec<u64>> = (0..3u64).map(|x| (0..2u64).map(|y| 100 + x * 10 + y).collect()).collect();
    TileMap::init_for(uvec2(3, 2), entities, c)
}

#[test]
fn collection_lookup() {
    let c = collection();
    assert!(matches!(c.get_tile(0, 0), Some(Tile::Singletile)));
    assert!(matches!(c.get_tile(1, 2), Some(Tile::MultitileOrigin { .. })));
    assert!(c.get_tile(1, 4).is_none());
    assert!(c.get_tile(2, 0).is_none());
    let mut d = collection();
    assert!(!d.set_tiles(5, vec![]));
    assert!(matches!(Tile::default(), Tile::Singletile));
    let ts: &TileSet = &d.tilesets[1];
    assert_eq!((ts.layout, ts.texture), (10, 20));
}

#[test]
fn new_map_is_empty() {
    let c = collection();
    let m = map(&c);
    assert_eq!(m.size(), uvec2(3, 2));
    for x in 0..3 {
        for y in 0..2 {
            assert_eq!(m.get_tile(uvec2(x, y)), Some(&(0, 0)));
        }
    }
    assert_eq!(m.get_tile(uvec2(3, 0)), None);
}

#[test]
fn single_tile_set_then_removed() {
    let c = collection();
    let mut m = map(&c);
    let mut cmds = vec![];
    assert!(m.set_tile(&mut cmds, uvec2(1, 0), &c, 1, 1));
    assert_eq!(m.get_tile(uvec2(1, 0)), Some(&(1, 1)));
    assert_eq!(cmds, vec![TextureCommand { entity: 110, texture: 20, layout: 10, index: 0 }]);
    // a taken cell refuses another single tile
    assert!(!m.set_tile(&mut cmds, uvec2(1, 0), &c, 1, 0));
    assert!(m.remove_tile(uvec2(1, 0), &c, &mut cmds));
    assert_eq!(m.get_tile(uvec2(1, 0)), Some(&(0, 0)));
    assert_eq!(cmds[1], TextureCommand { entity: 110, texture: 2, layout: 1, index: 0 });
    // an empty cell has nothing to remove
    assert!(!m.remove_tile(uvec2(2, 1), &c, &mut cmds));
}

#[test]
fn set_inserts_into_the_column() {
    let c = collection();
    let mut m = map(&c);
    let mut cmds = vec![];
    assert!(m.set_tile(&mut cmds, uvec2(0, 0), &c, 1, 1));
    // the ids above the cell moved up one row
    assert_eq!(m.get_tile(uvec2(0, 1)), Some(&(0, 0)));
    assert_eq!(m.get_tile(uvec2(0, 2)), Some(&(0, 0)));
}

#[test]
fn multitile_origin_sets_its_parts() {
    let c = collection();
    let mut m = map(&c);
    let mut cmds = vec![];
    assert!(m.set_tile(&mut cmds, uvec2(0, 1), &c, 1, 2));
    assert_eq!(
        cmds,
        vec![
            TextureCommand { entity: 111, texture: 20, layout: 10, index: 3 },
            TextureCommand { entity: 101, texture: 20, layout: 10, index: 2 },
        ]
    );
    assert_eq!(m.get_tile(uvec2(0, 1)), Some(&(1, 2)));
    assert_eq!(m.get_tile(uvec2(1, 1)), Some(&(1, 3)));
    // a part alone is refused, and an origin whose part falls outside too
    assert!(!m.set_tile(&mut cmds, uvec2(1, 0), &c, 1, 3));
    assert!(!m.set_tile(&mut cmds, uvec2(2, 0), &c, 1, 2));
    // outside the map's columns nothing is set
    assert!(!m.set_tile(&mut cmds, uvec2(7, 0), &c, 1, 1));
}

#[test]
fn removing_an_origin_clears_it() {
    let c = collection();
    let mut m = map(&c);
    let mut cmds = vec![];
    assert!(m.set_tile(&mut cmds, uvec2(0, 1), &c, 1, 2));
    cmds.clear();
    assert!(m.remove_tile(uvec2(0, 1), &c, &mut cmds));
    assert_eq!(
        cmds,
        vec![
            TextureCommand { entity: 111, texture: 2, layout: 1, index: 0 },
            TextureCommand { entity: 101, texture: 2, layout: 1, index: 0 },
        ]
    );
    assert_eq!(m.get_tile(uvec2(0, 1)), Some(&(0, 0)));
}
