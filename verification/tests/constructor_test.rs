use starpressure::constructor::{blueprint_action, BlueprintAction};
use starpressure::constructor::{place, process_selection, selection_coord, PlaceAction, PlaceData, Pos2Entity};
use starpressure::geom::ivec2;

#[test]
fn cells_of_cursor_coordinates() {
    assert_eq!(selection_coord(70, false), 2);
    assert_eq!(selection_coord(0, false), 0);
    // below 0 the cell moves down one more
    assert_eq!(selection_coord(-10, true), -1);
    assert_eq!(selection_coord(-40, true), -2);
    assert_eq!(selection_coord(-64, true), -3);
}

#[test]
fn mouse_buttons_pick_the_action() {
    let p = process_selection(33, false, -1, true, true, false);
    assert_eq!(p, PlaceData { pos: ivec2(1, -1), destroy: Some(false) });
    let q = process_selection(0, false, 0, false, true, true);
    assert_eq!(q.destroy, Some(true));
    let r = process_selection(0, false, 0, false, false, false);
    assert_eq!(r.destroy, None);
}

#[test]
fn cell_map() {
    let mut m = Pos2Entity::new();
    assert_eq!(m.get(&ivec2(1, 2)), None);
    m.insert(ivec2(1, 2), 9);
    m.insert(ivec2(0, 0), 3);
    assert!(m.contains_key(&ivec2(1, 2)));
    assert_eq!(m.get(&ivec2(1, 2)), Some(9));
    m.insert(ivec2(1, 2), 11);
    assert_eq!(m.get(&ivec2(1, 2)), Some(11));
    assert_eq!(m.remove(&ivec2(1, 2)), Some(11));
    assert_eq!(m.get(&ivec2(1, 2)), None);
    assert_eq!(m.remove(&ivec2(1, 2)), None);
    assert_eq!(m.get(&ivec2(0, 0)), Some(3));
}

#[test]
fn placing_and_destroying() {
    let mut m = Pos2Entity::new();
    let mut d = PlaceData { pos: ivec2(2, 2), destroy: Some(false) };
    assert_eq!(place(&mut d, &mut m, true, true), PlaceAction::Spawn { pos: ivec2(2, 2), is_tile: true });
    assert_eq!(d.destroy, None);
    m.insert(ivec2(2, 2), 40);
    // placing on a taken cell does nothing
    d.destroy = Some(false);
    assert_eq!(place(&mut d, &mut m, true, false), PlaceAction::Nothing);
    // nothing selected: nothing happens
    d.destroy = Some(true);
    assert_eq!(place(&mut d, &mut m, false, false), PlaceAction::Nothing);
    assert_eq!(d.destroy, None);
    assert_eq!(m.get(&ivec2(2, 2)), Some(40));
    d.destroy = Some(true);
    assert_eq!(place(&mut d, &mut m, true, false), PlaceAction::Despawn { entity: 40 });
    assert_eq!(m.get(&ivec2(2, 2)), None);
    // destroying an empty cell does nothing
    d.destroy = Some(true);
    assert_eq!(place(&mut d, &mut m, true, false), PlaceAction::Nothing);
    // no pending action: nothing happens
    assert_eq!(place(&mut d, &mut m, true, false), PlaceAction::Nothing);
}

fn sorted(mut v: Vec<starpressure::geom::IVec2>) -> Vec<(i32, i32)> {
    let mut r: Vec<(i32, i32)> = v.drain(..).map(|p| (p.x, p.y)).collect();
    r.sort();
    r
}

#[test]
fn no_tiles_one_empty_room() {
    let m = Pos2Entity::new();
    let rooms = starpressure::constructor::determine_rooms(&vec![], &m);
    assert_eq!(rooms.len(), 1);
    assert!(rooms[0].is_empty());
}

#[test]
fn rooms_are_found_twice_each() {
    let mut m = Pos2Entity::new();
    for (i, p) in [ivec2(0, 0), ivec2(0, 1), ivec2(1, 1), ivec2(5, 5), ivec2(5, 6), ivec2(9, 9)].iter().enumerate() {
        m.insert(*p, i as u64);
    }
    let tiles = vec![ivec2(0, 0), ivec2(5, 6), ivec2(1, 1)];
    let rooms = starpressure::constructor::determine_rooms(&tiles, &m);
    let got: Vec<Vec<(i32, i32)>> = rooms.into_iter().map(sorted).collect();
    assert_eq!(
        got,
        vec![
            vec![(0, 0), (0, 1), (1, 1)],
            vec![(0, 0), (0, 1), (1, 1)],
            vec![(5, 5), (5, 6)],
            vec![(5, 5), (5, 6)],
        ]
    );
}

#[test]
fn room_cells_in_visiting_order() {
    let mut m = Pos2Entity::new();
    m.insert(ivec2(0, 0), 1);
    m.insert(ivec2(1, 0), 2);
    m.insert(ivec2(0, -1), 3);
    let rooms = starpressure::constructor::determine_rooms(&vec![ivec2(0, 0)], &m);
    assert_eq!(rooms.len(), 2);
    assert_eq!(rooms[0], vec![ivec2(0, 0), ivec2(0, -1), ivec2(1, 0)]);
}

#[test]
fn blueprint_follows_the_selection() {
    assert_eq!(blueprint_action(None, true), BlueprintAction::Spawn);
    assert_eq!(blueprint_action(Some(4), true), BlueprintAction::Redraw { entity: 4 });
    assert_eq!(blueprint_action(Some(4), false), BlueprintAction::Despawn { entity: 4 });
    assert_eq!(blueprint_action(None, false), BlueprintAction::Nothing);
}

#[test]
fn blueprint_kept_exactly_while_selected() {
    // carry out the actions as the renderer does, spawning sprite 9
    let apply = |kept: Option<u64>, a: BlueprintAction| match a {
        BlueprintAction::Redraw { entity } => Some(entity),
        BlueprintAction::Spawn => Some(9),
        BlueprintAction::Despawn { .. } => None,
        BlueprintAction::Nothing => kept,
    };
    let mut kept = None;
    for selected in [true, true, false, false, true] {
        kept = apply(kept, blueprint_action(kept, selected));
        assert_eq!(kept.is_some(), selected);
    }
    assert_eq!(kept, Some(9));
}

#[test]
fn keys_lists_every_cell_once() {
    let mut m = Pos2Entity::new();
    m.insert(ivec2(0, 0), 1);
    m.insert(ivec2(3, -2), 2);
    m.insert(ivec2(0, 0), 5);
    let mut k = m.keys();
    k.sort_by_key(|p| (p.x, p.y));
    assert_eq!(k, vec![ivec2(0, 0), ivec2(3, -2)]);
}
