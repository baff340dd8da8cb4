use starpressure::geom::uvec2;
use starpressure::ship::{air_flow_steps, AirDir, BinMask, FlowStep, Neighbours, ShipSave, Wall};

fn step(fx: u32, fy: u32, tx: u32, ty: u32, dir: AirDir) -> FlowStep {
    FlowStep { from: uvec2(fx, fy), to: uvec2(tx, ty), dir }
}

#[test]
fn wall_needs_a_neighbour() {
    assert!(Wall::new(Neighbours::default(), 100, 10, [1, 1]).is_none());
    let mut n = Neighbours::default();
    assert!(n.is_all_none());
    n.left = Some(5);
    assert!(!n.is_all_none());
    let w = Wall::new(n, 100, 10, [1, 2]).unwrap();
    assert_eq!((w.hp, w.durability, w.size), (100, 10, [1, 2]));
    assert_eq!(w.neighbours.left, Some(5));
}

#[test]
fn mask_read_after_write() {
    let mut m = BinMask::new([3, 2]);
    for x in 0..3 {
        for y in 0..2 {
            assert!(!m.get(x, y));
        }
    }
    m.insert(2, 1, true);
    assert!(m.get(2, 1));
    assert!(!m.get(1, 1));
    m.insert(2, 1, false);
    assert!(!m.get(2, 1));
    assert_eq!(m.size, [3, 2]);
}

#[test]
fn save_has_empty_rooms() {
    let s = ShipSave::new(3);
    assert_eq!(s.tiles.len(), 3);
    assert_eq!(s.walls.len(), 3);
    assert!(s.tiles.iter().all(|t| t.is_empty()));
    assert!(s.walls.iter().all(|w| w.is_empty()));
    assert!(s.sizes.is_empty());
}

#[test]
fn air_flows_along_a_corridor() {
    let mut m = BinMask::new([3, 1]);
    for x in 0..3 {
        m.insert(x, 0, true);
    }
    let steps = air_flow_steps(&m, &vec![[0, 0]]);
    assert_eq!(
        steps,
        vec![
            step(0, 0, 1, 0, AirDir::Right),
            step(1, 0, 2, 0, AirDir::Right),
            step(1, 0, 0, 0, AirDir::Left),
            step(2, 0, 1, 0, AirDir::Left),
        ]
    );
}

#[test]
fn air_skips_closed_cells() {
    let mut m = BinMask::new([2, 2]);
    m.insert(0, 0, true);
    m.insert(1, 0, true);
    m.insert(0, 1, true);
    let steps = air_flow_steps(&m, &vec![[0, 0]]);
    assert_eq!(
        steps,
        vec![
            step(0, 0, 1, 0, AirDir::Right),
            step(0, 0, 0, 1, AirDir::Up),
            step(1, 0, 0, 0, AirDir::Left),
            step(0, 1, 0, 0, AirDir::Down),
        ]
    );
}

#[test]
fn no_starters_no_flow() {
    let m = BinMask::new([2, 2]);
    assert!(air_flow_steps(&m, &vec![]).is_empty());
    assert!(air_flow_steps(&m, &vec![[1, 1]]).is_empty());
}

#[test]
fn each_cell_is_left_once() {
    let mut m = BinMask::new([4, 4]);
    for x in 0..4 {
        for y in 0..4 {
            m.insert(x, y, true);
        }
    }
    let steps = air_flow_steps(&m, &vec![[0, 0], [3, 3]]);
    // every cell is visited once and steps into each of its neighbours
    let mut out = vec![0usize; 16];
    for s in steps.iter() {
        assert!(s.to.x < 4 && s.to.y < 4);
        out[(s.from.y * 4 + s.from.x) as usize] += 1;
    }
    for y in 0..4u32 {
        for x in 0..4u32 {
            let n = [x > 0, x < 3, y > 0, y < 3].iter().filter(|b| **b).count();
            assert_eq!(out[(y * 4 + x) as usize], n);
        }
    }
}

#[test]
fn air_flows_on_from_where_it_reached() {
    let mut m = BinMask::new([3, 3]);
    for (x, y) in [(0, 0), (1, 0), (1, 1), (1, 2), (2, 2), (0, 2)] {
        m.insert(x, y, true);
    }
    let steps = air_flow_steps(&m, &vec![[0, 0]]);
    assert!(!steps.is_empty());
    for (i, s) in steps.iter().enumerate() {
        let from_start = s.from == uvec2(0, 0);
        let from_earlier = steps[..i].iter().any(|e| e.to == s.from);
        assert!(from_start || from_earlier);
    }
}
