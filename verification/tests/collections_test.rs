use starpressure::collections::{TileCollection, TilesCollections};
use starpressure::parser::{parse_tile, JsonTileData};
use starpressure::tiles::TileData;

fn tiles(names: &[&str]) -> Vec<TileData> {
    let js: Vec<JsonTileData> = names
        .iter()
        .map(|n| JsonTileData {
            name: String::from(*n),
            multitile_z_mask: None,
            origin: None,
            reaction: None,
            variant_count: None,
            frame_count: None,
        })
        .collect();
    parse_tile(&js, 1, 1)
}

#[test]
fn collection_basics() {
    let mut c = TileCollection::new(String::from("base"));
    assert_eq!(c.name(), "base");
    assert!(c.get(0).is_none());
    let mut more = tiles(&["a", "b"]);
    c.append(&mut more);
    assert!(more.is_empty());
    assert_eq!(c.get(1).unwrap().name, "b");
    let c = c.with_name(String::from("renamed"));
    assert_eq!(c.name(), "renamed");
    assert_eq!(c.iter().len(), 2);
    assert_eq!(c.into_iter().len(), 2);
}

#[test]
fn extending_moves_tiles() {
    let mut a = TileCollection::new(String::from("a"));
    a.append(&mut tiles(&["x"]));
    let mut b = TileCollection::new(String::from("b"));
    b.append(&mut tiles(&["y", "z"]));
    let a = a.extended(&mut b);
    assert_eq!(a.iter().len(), 3);
    assert_eq!(a.get(2).unwrap().name, "z");
    assert!(b.get(0).is_none());
    assert_eq!(b.name(), "b");
}

#[test]
fn collections_by_id() {
    let mut all = TilesCollections::default();
    let mut c = TileCollection::new(String::from("walls"));
    c.append(&mut tiles(&["w0", "w1"]));
    assert_eq!(all.add(c), 0);
    assert_eq!(all.add(TileCollection::new(String::from("floors"))), 1);
    assert_eq!(all.get(1).unwrap().name(), "floors");
    assert_eq!(all.get_tile(0, 1).unwrap().name, "w1");
    assert!(all.get_tile(1, 0).is_none());
    assert!(all.get_tile(2, 0).is_none());
    assert_eq!(all.iter().len(), 2);
    assert_eq!(all.into_iter()[0].name(), "walls");
}
