use starpressure::appstates::{menu_ph, AppState, GameState};
use starpressure::game_core::GameManager;
use starpressure::handles::Name2Handle;
use starpressure::objects::Object;

#[test]
fn ids_count_up() {
    let mut g = GameManager::default();
    assert_eq!(g.new_id(), 1);
    assert_eq!(g.new_id(), 2);
    let _o = g.new_object(42);
    assert_eq!(g.new_id(), 4);
}

#[test]
fn objects_get_distinct_ids() {
    let mut g = GameManager::default();
    let a = g.new_object(7);
    let b = g.new_object(8);
    let _ = (a, b);
    assert_eq!(g.new_id(), 3);
}

#[test]
fn ticks() {
    let mut g = GameManager::default();
    assert_eq!(g.get_tick(), 0);
    g.tick_step();
    g.tick_step();
    assert_eq!(g.get_tick(), 2);
    g.set_tick(40);
    assert_eq!(g.get_tick(), 40);
}

#[test]
fn object_ids() {
    assert_eq!(Object::new(9).id(), 9);
}

#[test]
fn handles_by_name() {
    let mut h = Name2Handle::new();
    assert_eq!(h.get("floor"), None);
    h.insert(String::from("floor"), 3);
    h.insert(String::from("wall"), 4);
    assert_eq!(h.get("floor"), Some(&3));
    h.insert(String::from("floor"), 5);
    assert_eq!(h.get("floor"), Some(&5));
    assert_eq!(h.get("wall"), Some(&4));
    assert_eq!(h.get("roof"), None);
}

#[test]
fn states() {
    assert_eq!(AppState::default(), AppState::InMenu);
    assert_eq!(GameState::default(), GameState::Game);
    assert_eq!(menu_ph(), (AppState::InGame, GameState::Editor));
}
