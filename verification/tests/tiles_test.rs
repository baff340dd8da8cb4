use starpressure::geom::{ivec2, uvec2, IVec2, UVec2};
use starpressure::tiles::{MultitileType, TileData, TileNeighborReaction};

fn tile(reaction: TileNeighborReaction, cols: usize, rows: usize, frames: usize, variants: usize) -> TileData {
    TileData {
        name: String::from("plate"),
        image: 7,
        atlas_layout: 100,
        frame_count: frames,
        variant_count: variants,
        multitile: MultitileType::Single,
        neighbor_reaction: reaction,
        origin_offset: uvec2(0, 0),
        size: uvec2(1, 1),
        atlas_columns: cols,
        atlas_rows: rows,
        main_layer_rect: (uvec2(0, 0), uvec2(0, 0)),
        to_update: vec![],
    }
}

fn table_tile() -> TileData {
    TileData {
        name: String::from("table"),
        image: 7,
        atlas_layout: 101,
        frame_count: 0,
        variant_count: 0,
        multitile: MultitileType::Multitile { z_mask: vec![vec![0, 0], vec![0, 1]] },
        neighbor_reaction: TileNeighborReaction::NoReaction,
        origin_offset: uvec2(0, 0),
        size: uvec2(2, 2),
        atlas_columns: 1,
        atlas_rows: 1,
        main_layer_rect: (uvec2(0, 0), uvec2(1, 1)),
        to_update: vec![],
    }
}

#[test]
fn auto4_index_table() {
    let r = TileNeighborReaction::Auto4;
    let expected = [12, 8, 13, 9, 0, 4, 1, 5, 15, 11, 14, 10, 3, 7, 2, 6];
    for (id, e) in expected.iter().enumerate() {
        assert_eq!(r.get_idx_from_neighborstate(id), *e);
    }
    assert_eq!(r.get_idx_from_neighborstate(16), 12);
    assert_eq!(r.get_idx_from_neighborstate(1000), 12);
}

#[test]
fn other_reactions_index() {
    assert_eq!(TileNeighborReaction::NoReaction.get_idx_from_neighborstate(5), 0);
    assert_eq!(TileNeighborReaction::RevAuto4.get_idx_from_neighborstate(5), 0);
    assert_eq!(TileNeighborReaction::Auto4Corners.get_idx_from_neighborstate(5), 5);
    assert_eq!(TileNeighborReaction::Auto4Corners.get_idx_from_neighborstate(20), 11);
}

#[test]
fn auto4_position_table() {
    let r = TileNeighborReaction::Auto4;
    assert_eq!(r.get_pos_from_neighborstate(0), (0, 3));
    assert_eq!(r.get_pos_from_neighborstate(8), (3, 3));
    assert_eq!(r.get_pos_from_neighborstate(15), (2, 1));
    assert_eq!(r.get_pos_from_neighborstate(99), (0, 3));
    assert_eq!(TileNeighborReaction::NoReaction.get_pos_from_neighborstate(3), (0, 0));
    assert_eq!(TileNeighborReaction::Auto4Corners.get_pos_from_neighborstate(7), (1, 1));
    assert_eq!(TileNeighborReaction::RevAuto4.get_pos_from_neighborstate(7), (1, 1));
}

#[test]
fn auto4_layout_is_one_to_one() {
    let r = TileNeighborReaction::Auto4;
    let mut seen = vec![false; 16];
    for id in 0..16 {
        let (c, row) = r.get_pos_from_neighborstate(id);
        assert!(c < 4 && row < 4);
        assert!(!seen[row * 4 + c]);
        seen[row * 4 + c] = true;
    }
    let mut idx_seen = vec![false; 16];
    for id in 0..16 {
        let i = r.get_idx_from_neighborstate(id);
        assert!(!idx_seen[i]);
        idx_seen[i] = true;
    }
}

#[test]
fn neighbour_offsets_of_reactions() {
    assert_eq!(
        TileNeighborReaction::Auto4.iter_offsets(),
        vec![(ivec2(0, 1), 1), (ivec2(1, 0), 2), (ivec2(0, -1), 4), (ivec2(-1, 0), 8)]
    );
    assert_eq!(TileNeighborReaction::NoReaction.iter_offsets(), vec![(ivec2(0, 0), 0)]);
}

#[test]
fn atlas_index_formula() {
    let t = tile(TileNeighborReaction::Auto4, 4, 4, 2, 3);
    // state 0 sits at layout cell (0, 3); frame 1, variant 1
    assert_eq!(t.get_atlas_idx_from_neighborstate((0, 0), 0, 1, 1), 60);
    // state 15 sits at layout cell (2, 1)
    assert_eq!(t.get_atlas_idx_from_neighborstate((0, 0), 15, 0, 0), 10);
    assert_eq!(t.get_atlas_idx_from_multitile_pos((3, 2), 1, 1), 4 + 32 + 16 + 3);
}

#[test]
fn atlas_index_stays_in_grid() {
    let t = tile(TileNeighborReaction::Auto4, 4, 4, 2, 3);
    let width = 2 * 4;
    let height = 3 * 4;
    for state in 0..20 {
        for variant in 0..3 {
            for frame in 0..2 {
                let i = t.get_atlas_idx_from_neighborstate((0, 0), state, variant, frame);
                assert!(i < width * height);
            }
        }
    }
}

#[test]
fn single_tile_queries() {
    let t = tile(TileNeighborReaction::NoReaction, 1, 1, 0, 0);
    assert!(!t.is_multitile());
    assert!(!t.has_reaction());
    assert_eq!(t.size(), uvec2(1, 1));
    assert_eq!(t.get_main_layer_size(), uvec2(1, 1));
    assert_eq!(t.get_main_layer_rect(), (uvec2(0, 0), uvec2(0, 0)));
    assert_eq!(t.iter_offsets(), vec![ivec2(0, 0)]);
    assert_eq!(t.iter_offsets_masked(), vec![ivec2(0, 0)]);
    let a = tile(TileNeighborReaction::Auto4, 4, 4, 0, 0);
    assert!(a.has_reaction());
}

#[test]
fn multitile_depths() {
    let t = table_tile();
    assert_eq!(t.multitile.get_z(uvec2(1, 1)), 1);
    assert_eq!(t.multitile.get_z(uvec2(0, 1)), 0);
    assert_eq!(t.multitile.get_z(uvec2(5, 5)), 0);
    assert_eq!(MultitileType::Single.get_z(uvec2(0, 0)), 0);
    assert!(t.is_multitile());
}

#[test]
fn multitile_offsets() {
    let t = table_tile();
    assert_eq!(t.iter_offsets(), vec![ivec2(0, 0), ivec2(0, -1), ivec2(1, 0), ivec2(1, -1)]);
    assert_eq!(t.iter_offsets_masked(), vec![ivec2(0, 0), ivec2(0, -1), ivec2(1, 0)]);
    assert_eq!(t.get_main_layer_size(), uvec2(2, 2));
}

#[test]
fn multitile_atlas_entries() {
    let t = table_tile();
    assert_eq!(
        t.iter_tile_atlas_idxs(0, 0, 0),
        vec![(ivec2(0, 0), 0, 0), (ivec2(0, -1), 2, 0), (ivec2(1, 0), 1, 0), (ivec2(1, -1), 3, 1)]
    );
    assert_eq!(t.iter_tile_atlas_idxs_for_overlay(0, 0, 0), vec![3]);
}

#[test]
fn neighbour_offsets_scale_with_main_layer() {
    let mut t = table_tile();
    t.neighbor_reaction = TileNeighborReaction::Auto4;
    t.atlas_columns = 4;
    t.atlas_rows = 4;
    assert_eq!(
        t.iter_neighbors_offsets(),
        vec![(ivec2(0, 2), 1), (ivec2(2, 0), 2), (ivec2(0, -2), 4), (ivec2(-2, 0), 8)]
    );
}

#[test]
fn relative_offset_roundtrip() {
    let mut t = table_tile();
    t.origin_offset = uvec2(1, 0);
    let rel: UVec2 = t.origin_offset_to_relative(ivec2(-1, -1));
    assert_eq!(rel, uvec2(0, 1));
    let back: IVec2 = t.relative_to_origin_offset(rel);
    assert_eq!(back, ivec2(-1, -1));
    for x in 0..2u32 {
        for y in 0..2u32 {
            let off = t.relative_to_origin_offset(uvec2(x, y));
            assert_eq!(t.origin_offset_to_relative(off), uvec2(x, y));
        }
    }
}

#[test]
fn tile_equality_and_copy() {
    let t = table_tile();
    let c = t.clone();
    assert!(t.same_as(&c));
    assert!(t == c);
    let mut d = t.clone();
    d.multitile = MultitileType::Multitile { z_mask: vec![vec![0, 0], vec![0, 0]] };
    assert!(!t.same_as(&d));
    assert!(t.multitile.same_as(&t.multitile.duplicate()));
}

#[test]
fn plain_tile_index_ignores_the_neighbour_state() {
    let t = table_tile();
    for x in 0..2usize {
        for y in 0..2usize {
            for state in [0usize, 3, 15] {
                assert_eq!(
                    t.get_atlas_idx_from_multitile_pos((x, y), 0, 0),
                    t.get_atlas_idx_from_neighborstate((x, y), state, 0, 0)
                );
            }
        }
    }
}

#[test]
fn main_and_overlay_cells_cover_the_tile() {
    let t = table_tile();
    let cells = (t.size.x * t.size.y) as usize;
    assert_eq!(t.iter_offsets_masked().len() + t.iter_tile_atlas_idxs_for_overlay(0, 0, 0).len(), cells);
    assert_eq!(t.iter_tile_atlas_idxs(0, 0, 0).len(), cells);
    let single = tile(TileNeighborReaction::NoReaction, 1, 1, 1, 1);
    assert_eq!(single.iter_offsets_masked(), single.iter_offsets());
}
