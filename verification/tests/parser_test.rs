use starpressure::geom::{ivec2, uvec2};
use starpressure::parser::{parse_tile, JsonTileData};
use starpressure::tiles::{MultitileType, TileNeighborReaction};

fn json(name: &str, mask: Option<Vec<Vec<i8>>>, origin: Option<(u16, u16)>, reaction: Option<TileNeighborReaction>,
    variants: Option<usize>, frames: Option<usize>) -> JsonTileData {
    JsonTileData {
        name: String::from(name),
        multitile_z_mask: mask,
        origin,
        reaction,
        variant_count: variants,
        frame_count: frames,
    }
}

fn around() -> Vec<starpressure::geom::IVec2> {
    vec![
        ivec2(-1, -1), ivec2(-1, 0), ivec2(-1, 1), ivec2(0, -1),
        ivec2(0, 1), ivec2(1, -1), ivec2(1, 0), ivec2(1, 1),
    ]
}

#[test]
fn single_tile_from_description() {
    let tiles = parse_tile(&vec![json("grass", None, None, Some(TileNeighborReaction::Auto4), Some(2), None)], 7, 100);
    assert_eq!(tiles.len(), 1);
    let t = &tiles[0];
    assert_eq!(t.name, "grass");
    assert_eq!(t.image, 7);
    assert_eq!(t.atlas_layout, 100);
    assert_eq!(t.variant_count, 2);
    assert_eq!(t.frame_count, 0);
    assert_eq!(t.neighbor_reaction, TileNeighborReaction::Auto4);
    assert_eq!((t.atlas_columns, t.atlas_rows), (4, 4));
    assert_eq!(t.size, uvec2(1, 1));
    assert_eq!(t.origin_offset, uvec2(0, 0));
    assert_eq!(t.main_layer_rect, (uvec2(0, 0), uvec2(0, 0)));
    assert!(!t.is_multitile());
    assert_eq!(t.to_update, around());
    assert!(t.check_wf());
}

#[test]
fn layouts_are_numbered_in_order() {
    let tiles = parse_tile(
        &vec![
            json("a", None, None, None, None, None),
            json("b", None, None, Some(TileNeighborReaction::RevAuto4), None, Some(3)),
        ],
        9,
        40,
    );
    assert_eq!(tiles[0].atlas_layout, 40);
    assert_eq!(tiles[1].atlas_layout, 41);
    assert_eq!((tiles[0].atlas_columns, tiles[0].atlas_rows), (1, 1));
    assert_eq!((tiles[1].atlas_columns, tiles[1].atlas_rows), (3, 3));
    assert_eq!(tiles[1].frame_count, 3);
}

#[test]
fn multitile_from_description() {
    let tiles = parse_tile(&vec![json("bed", Some(vec![vec![1, 0], vec![0, 0]]), None, None, None, None)], 7, 100);
    let t = &tiles[0];
    assert_eq!(t.size, uvec2(2, 2));
    assert!(t.is_multitile());
    // the origin cell is put at depth 0
    match &t.multitile {
        MultitileType::Multitile { z_mask } => assert_eq!(z_mask, &vec![vec![0, 0], vec![0, 0]]),
        MultitileType::Single => panic!("a mask was given"),
    }
    assert_eq!(t.main_layer_rect, (uvec2(0, 0), uvec2(1, 1)));
    // cells touching the main layer of the description, outside it
    assert_eq!(t.to_update.len(), 12);
    for p in [ivec2(0, 0), ivec2(2, 1), ivec2(-1, -2), ivec2(2, -2), ivec2(-1, 0)] {
        assert!(t.to_update.contains(&p));
    }
    for p in [ivec2(-1, 1), ivec2(1, 0), ivec2(0, -1), ivec2(1, -1)] {
        assert!(!t.to_update.contains(&p));
    }
    for i in 0..t.to_update.len() {
        for j in 0..i {
            assert_ne!(t.to_update[i], t.to_update[j]);
        }
    }
    assert!(t.check_wf());
}

#[test]
fn main_layer_rect_bounds_zero_cells() {
    let tiles = parse_tile(
        &vec![json("l", Some(vec![vec![5, 5, 5], vec![5, 0, 0], vec![5, 0, 5]]), Some((2, 0)), None, None, None)],
        1,
        1,
    );
    let t = &tiles[0];
    assert_eq!(t.size, uvec2(3, 3));
    assert_eq!(t.origin_offset, uvec2(2, 0));
    assert_eq!(t.main_layer_rect, (uvec2(1, 1), uvec2(2, 2)));
    match &t.multitile {
        MultitileType::Multitile { z_mask } => assert_eq!(z_mask[0], vec![5, 5, 0]),
        MultitileType::Single => panic!("a mask was given"),
    }
}

#[test]
fn empty_mask_is_a_single_tile() {
    let tiles = parse_tile(&vec![json("e", Some(vec![]), None, None, None, None)], 1, 1);
    assert_eq!(tiles[0].size, uvec2(1, 1));
    assert!(!tiles[0].is_multitile());
    assert_eq!(tiles[0].to_update, around());
}

#[test]
fn atlas_grid_size() {
    let j = json("g", None, None, Some(TileNeighborReaction::Auto4), None, Some(3));
    assert_eq!(j.atlas_grid(), (12, 4));
    let m = json("m", Some(vec![vec![0, 0, 0], vec![0, 0, 0]]), None, None, Some(2), Some(2));
    assert_eq!(m.atlas_grid(), (6, 4));
}

#[test]
fn malformed_tile_is_refused() {
    let mut t = parse_tile(&vec![json("x", None, None, None, None, None)], 1, 1).remove(0);
    assert!(t.check_wf());
    t.atlas_columns = 2;
    assert!(!t.check_wf());
    let mut u = parse_tile(&vec![json("y", None, None, None, None, None)], 1, 1).remove(0);
    u.size = uvec2(0, 1);
    assert!(!u.check_wf());
}
