use starpressure::geom::{ivec2, uvec2};
use starpressure::parser::{parse_tile, JsonTileData};
use starpressure::tile_grid::{grid_cell_texture, SpriteCommand, StoredTile, TileGrid};
use starpressure::tiles::{TileData, TileNeighborReaction};

fn wall() -> TileData {
    parse_tile(
        &vec![JsonTileData {
            name: String::from("wall"),
            multitile_z_mask: None,
            origin: None,
            reaction: Some(TileNeighborReaction::Auto4),
            variant_count: None,
            frame_count: None,
        }],
        7,
        100,
    )
    .remove(0)
}

fn table() -> TileData {
    parse_tile(
        &vec![JsonTileData {
            name: String::from("table"),
            multitile_z_mask: Some(vec![vec![0, 0], vec![0, 1]]),
            origin: None,
            reaction: None,
            variant_count: None,
            frame_count: None,
        }],
        8,
        200,
    )
    .remove(0)
}

fn set_index(entity: u64, atlas_layout: u64, index: usize) -> SpriteCommand {
    SpriteCommand::SetIndex { entity, atlas_layout, index }
}

#[test]
fn new_grid() {
    let g = TileGrid::new(uvec2(4, 3));
    assert_eq!(g.size(), uvec2(4, 3));
    assert!(!g.has_pending());
    assert!(g.in_bounds(&uvec2(3, 2)));
    assert!(!g.in_bounds(&uvec2(4, 0)));
    assert!(g.in_bounds_i(&ivec2(0, 0)));
    assert!(!g.in_bounds_i(&ivec2(-1, 0)));
    assert!(!g.in_bounds_i(&ivec2(0, 3)));
}

#[test]
fn changes_outside_are_not_queued() {
    let mut g = TileGrid::new(uvec2(4, 4));
    g.add(&ivec2(-1, 0), wall());
    g.set(&ivec2(4, 0), Some(wall()));
    g.remove(&ivec2(0, 9));
    assert!(!g.has_pending());
    g.set(&ivec2(1, 1), None);
    assert!(g.has_pending());
}

#[test]
fn reacting_neighbours_are_refreshed() {
    let mut g = TileGrid::new(uvec2(4, 4));
    g.add(&ivec2(1, 1), wall());
    assert_eq!(g.next_variant_request(), None);
    assert!(!g.next_would_panic(0));
    let first = g.process_next(0);
    assert_eq!(
        first,
        vec![SpriteCommand::Spawn { entity: 0, image: 7, atlas_layout: 100, index: 12, pos: ivec2(1, 1), z: 0 }]
    );
    g.add(&ivec2(2, 1), wall());
    let second = g.process_next(0);
    assert_eq!(
        second,
        vec![
            SpriteCommand::Spawn { entity: 1, image: 7, atlas_layout: 100, index: 15, pos: ivec2(2, 1), z: 0 },
            set_index(0, 100, 13),
            set_index(0, 100, 13),
        ]
    );
    assert!(!g.has_pending());
    let anim = g.update_animations(|_t: &TileData| 0);
    assert_eq!(anim, vec![set_index(0, 100, 13), set_index(1, 100, 15)]);
    g.remove(&ivec2(1, 1));
    let third = g.update(&vec![0], |_t: &TileData| 0);
    assert_eq!(
        third,
        vec![
            SpriteCommand::Despawn { entity: 0 },
            set_index(1, 100, 12),
            set_index(1, 100, 12),
            set_index(1, 100, 12),
        ]
    );
}

#[test]
fn taken_cell_is_left_alone() {
    let mut g = TileGrid::new(uvec2(3, 3));
    g.add(&ivec2(0, 0), wall());
    g.add(&ivec2(0, 0), wall());
    let cmds = g.update(&vec![0, 0], |_t: &TileData| 0);
    assert_eq!(
        cmds,
        vec![
            SpriteCommand::Spawn { entity: 0, image: 7, atlas_layout: 100, index: 12, pos: ivec2(0, 0), z: 0 },
            set_index(0, 100, 12),
        ]
    );
}

#[test]
fn multitile_is_placed_and_removed_whole() {
    let mut g = TileGrid::new(uvec2(4, 4));
    g.add(&ivec2(1, 1), table());
    let placed = g.process_next(0);
    assert_eq!(
        placed,
        vec![
            SpriteCommand::Spawn { entity: 0, image: 8, atlas_layout: 200, index: 0, pos: ivec2(1, 1), z: 0 },
            SpriteCommand::Spawn { entity: 1, image: 8, atlas_layout: 200, index: 2, pos: ivec2(1, 0), z: 0 },
            SpriteCommand::Spawn { entity: 2, image: 8, atlas_layout: 200, index: 1, pos: ivec2(2, 1), z: 0 },
            SpriteCommand::Spawn { entity: 3, image: 8, atlas_layout: 200, index: 3, pos: ivec2(2, 0), z: 1 },
        ]
    );
    let anim = g.update_animations(|_t: &TileData| 0);
    assert_eq!(anim, vec![set_index(1, 200, 2), set_index(3, 200, 3), set_index(0, 200, 0), set_index(2, 200, 1)]);
    g.remove(&ivec2(2, 1));
    let removed = g.process_next(0);
    assert_eq!(
        removed,
        vec![
            SpriteCommand::Despawn { entity: 3 },
            SpriteCommand::Despawn { entity: 0 },
            SpriteCommand::Despawn { entity: 1 },
            SpriteCommand::Despawn { entity: 2 },
        ]
    );
    // the cells are free again: a single tile fits where the table was
    g.add(&ivec2(1, 0), wall());
    let again = g.process_next(0);
    assert_eq!(again[0], SpriteCommand::Spawn { entity: 4, image: 7, atlas_layout: 100, index: 12, pos: ivec2(1, 0), z: 0 });
}

#[test]
fn multitile_needs_room() {
    let mut g = TileGrid::new(uvec2(4, 4));
    // the table's lower row would lie below the grid
    g.add(&ivec2(1, 0), table());
    let cmds = g.process_next(0);
    assert!(cmds.is_empty());
}

#[test]
fn variants_are_sampled_for_placements_only() {
    let mut t = wall();
    t.variant_count = 3;
    let mut g = TileGrid::new(uvec2(2, 2));
    g.add(&ivec2(0, 0), t.clone());
    assert_eq!(g.next_variant_request(), Some(100));
    assert!(g.next_would_panic(3));
    assert!(!g.next_would_panic(2));
    let cmds = g.process_next(2);
    // variant 2 starts 2 * 4 rows down a 4 wide atlas: 12 + 2 * 16
    assert_eq!(cmds, vec![SpriteCommand::Spawn { entity: 0, image: 7, atlas_layout: 100, index: 44, pos: ivec2(0, 0), z: 0 }]);
    g.add(&ivec2(0, 0), t);
    assert_eq!(g.next_variant_request(), None);
}

#[test]
fn unsupported_tiles_are_reported() {
    let mut t = wall();
    t.neighbor_reaction = TileNeighborReaction::RevAuto4;
    t.atlas_columns = 3;
    t.atlas_rows = 3;
    let mut g = TileGrid::new(uvec2(2, 2));
    g.add(&ivec2(0, 0), t.clone());
    assert!(g.next_would_panic(0));
    // where it does not fit, such a tile is dropped without a fuss
    let mut h = TileGrid::new(uvec2(2, 2));
    h.add(&ivec2(0, 0), wall());
    let _ = h.process_next(0);
    h.add(&ivec2(0, 0), t);
    assert!(!h.next_would_panic(0));
    assert!(h.process_next(0).is_empty());
    assert!(!h.has_pending());
}

#[test]
fn animation_frames_follow_the_callback() {
    let mut t = wall();
    t.frame_count = 2;
    let mut g = TileGrid::new(uvec2(2, 2));
    g.add(&ivec2(0, 0), t);
    let _ = g.process_next(0);
    let anim = g.update_animations(|d: &TileData| if d.frame_count > 1 { 1 } else { 0 });
    // frame 1 is the next block of 4 columns, in an 8 wide atlas: 4 + 8 * 3
    assert_eq!(anim, vec![set_index(0, 100, 28)]);
}

#[test]
fn cell_texture_marks_corners() {
    let tex = grid_cell_texture();
    let mut expected = vec![0u8; 16 * 16 * 4];
    let x = 16;
    let y = 16;
    for i in 0..3usize {
        for pos in [i, i * x, x - i - 1, (x - 1) + x * i, x * y - (x * i) - 1, x * y - i - 1, x * y - x + i, x * y - x - x * i] {
            expected[pos * 4..pos * 4 + 4].copy_from_slice(&[0, 0, 0, 128]);
        }
    }
    assert_eq!(tex, expected);
}

#[test]
fn stored_part_on_origin_cell() {
    let t = table();
    let around = t.iter_to_update().clone();
    let part = StoredTile {
        entity: 3,
        tile_data: t,
        origin_offset: ivec2(0, 0),
        overlay_tiles: vec![],
        variant: 0,
        neighborstate: 0,
        frame: 0,
    };
    assert!(part.is_origin());
    assert_eq!(part.iter_around_tile(), &around);
    let other = StoredTile { origin_offset: ivec2(1, 0), ..part };
    assert!(!other.is_origin());
}

fn plain(name: &str, mask: Option<Vec<Vec<i8>>>, layout: u64) -> TileData {
    parse_tile(
        &vec![JsonTileData {
            name: String::from(name),
            multitile_z_mask: mask,
            origin: None,
            reaction: None,
            variant_count: None,
            frame_count: None,
        }],
        9,
        layout,
    )
    .remove(0)
}

#[test]
fn short_mask_rows_are_placed_whole() {
    // the second row lists one cell; the missing one is a main-layer cell too
    let hook = plain("hook", Some(vec![vec![0, 0], vec![0]]), 300);
    let mut g = TileGrid::new(uvec2(4, 4));
    g.add(&ivec2(1, 3), hook);
    assert!(!g.next_would_panic(0));
    let cmds = g.process_next(0);
    assert_eq!(cmds.len(), 4);
    assert!(cmds.iter().all(|c| matches!(c, SpriteCommand::Spawn { z: 0, .. })));
    // the cell of the missing mask entry is taken now
    g.add(&ivec2(2, 2), plain("dot", None, 301));
    assert!(g.process_next(0).is_empty());
}

#[test]
fn short_mask_rows_that_would_cover_a_tile_are_reported() {
    let mut g = TileGrid::new(uvec2(4, 4));
    g.add(&ivec2(2, 2), plain("dot", None, 301));
    let _ = g.process_next(0);
    // the placement check passes, but the unlisted cell (2, 2) is taken
    g.add(&ivec2(1, 3), plain("hook", Some(vec![vec![0, 0], vec![0]]), 300));
    assert!(g.next_would_panic(0));
}
