use roguelike::components::{CombatComponent, PositionComponent, SpriteComponent, Team};
use roguelike::entities::hunting::{
    choose_attack_target, find_chase_target, first_prey_on_exec, is_chase_target_still_valid, prey_cells,
};
use roguelike::movement::{first_reachable, pathfind, walk_distance, Goal};
use roguelike::tiles::TileSet;
use roguelike::world::{Entity, World};

fn p(x: i32, y: i32) -> PositionComponent {
    PositionComponent { x, y }
}

fn fighter(w: &mut World, at: PositionComponent, team: Team) -> Entity {
    w.spawn("Fighter", at, SpriteComponent { id: "fighter" }, Some(CombatComponent::new(10, 4, 4, 4, 4, team)), None, None)
}

fn wall(w: &mut World, at: PositionComponent) -> Entity {
    w.spawn("Wall", at, SpriteComponent { id: "wall" }, None, None, None)
}

#[test]
fn the_shortest_walk_goes_around_an_obstacle() {
    let obstacles = vec![p(1, 0)];
    let path = pathfind(p(0, 0), Goal::Reach(p(2, 0)), &obstacles, true).unwrap();
    assert_eq!(path.len(), 2);
    assert_eq!(*path.last().unwrap(), p(2, 0));
    assert!(!path.contains(&p(1, 0)));
    let rook = pathfind(p(0, 0), Goal::Reach(p(2, 0)), &obstacles, false).unwrap();
    assert_eq!(rook.len(), 4);
}

#[test]
fn a_walk_to_a_neighbour_of_the_goal_stops_beside_it() {
    let obstacles = vec![p(3, 0)];
    let path = pathfind(p(0, 0), Goal::NextTo(p(3, 0)), &obstacles, true).unwrap();
    assert_eq!(path.len(), 2);
    let end = *path.last().unwrap();
    assert_eq!((end.x - 3).abs() + end.y.abs(), 1);
    let here = pathfind(p(2, 0), Goal::NextTo(p(3, 0)), &obstacles, true).unwrap();
    assert!(here.is_empty());
}

#[test]
fn an_enclosed_start_has_no_walk_out() {
    let start = p(0, 0);
    let ring: Vec<PositionComponent> = start.neighbors().to_vec();
    assert!(pathfind(start, Goal::Reach(p(5, 5)), &ring, true).is_none());
    assert_eq!(walk_distance(start, p(2, 0), &ring, true), None);
}

#[test]
fn distances_count_king_moves() {
    let obstacles = vec![p(10, 10)];
    assert_eq!(walk_distance(p(0, 0), p(3, 2), &obstacles, true), Some(3));
    assert_eq!(walk_distance(p(0, 0), p(3, 2), &obstacles, false), Some(5));
    assert_eq!(walk_distance(p(1, 1), p(1, 1), &obstacles, true), Some(0));
}

#[test]
fn the_nearest_listed_cell_is_found_first() {
    let obstacles = vec![p(5, 5)];
    let cells = vec![p(4, 0), p(0, 2), p(9, 9)];
    assert_eq!(first_reachable(p(0, 0), p(0, 0), &obstacles, true, &cells, 3), Some((p(0, 2), 2)));
    assert_eq!(first_reachable(p(0, 0), p(0, 0), &obstacles, true, &cells, 1), None);
}

#[test]
fn tile_sets_hold_each_tile_once() {
    let mut s = TileSet::new();
    s.insert(p(1, 2));
    s.insert(p(-1, 2));
    s.insert(p(1, 2));
    assert!(s.contains(p(1, 2)));
    assert!(s.contains(p(-1, 2)));
    assert!(!s.contains(p(2, 1)));
    assert_eq!(s.to_vec(), vec![p(1, 2), p(-1, 2)]);
}

#[test]
fn a_quarry_is_kept_while_it_exists() {
    let mut w = World::new();
    let hunter = fighter(&mut w, p(0, 0), Team::Enemy);
    let far = fighter(&mut w, p(30, 30), Team::Player);
    assert!(is_chase_target_still_valid(hunter, far, &w));
    w.despawn(far);
    assert!(!is_chase_target_still_valid(hunter, far, &w));
}

#[test]
fn a_quarry_is_found_within_two_steps_of_its_side() {
    let mut w = World::new();
    let hunter = fighter(&mut w, p(0, 0), Team::Enemy);
    let _friend = fighter(&mut w, p(1, 0), Team::Enemy);
    let near = fighter(&mut w, p(3, 0), Team::Player);
    let _far = fighter(&mut w, p(9, 0), Team::Player);
    wall(&mut w, p(20, 20));
    let cells = prey_cells(&w, false);
    assert!(cells.contains(&p(2, 0)));
    assert_eq!(find_chase_target(p(0, 0), &w, false), Some(near));
    let _ = hunter;
    let mut lonely = World::new();
    fighter(&mut lonely, p(0, 0), Team::Enemy);
    fighter(&mut lonely, p(5, 0), Team::Player);
    assert_eq!(find_chase_target(p(0, 0), &lonely, false), None);
}

#[test]
fn the_pyro_snake_only_hunts_the_players_side() {
    let mut w = World::new();
    fighter(&mut w, p(0, 0), Team::Enemy);
    let neutral = fighter(&mut w, p(2, 0), Team::Neutral);
    assert_eq!(find_chase_target(p(0, 0), &w, false), Some(neutral));
    assert_eq!(find_chase_target(p(0, 0), &w, true), None);
}

#[test]
fn a_monster_strikes_its_quarry_or_else_whoever_stands_above() {
    let mut w = World::new();
    let left = fighter(&mut w, p(-1, 0), Team::Player);
    let above = fighter(&mut w, p(0, 1), Team::Player);
    assert_eq!(first_prey_on_exec(&w, p(-1, 0), false), Some(left));
    assert_eq!(choose_attack_target(&w, p(0, 0), Some(left), false), Some(left));
    assert_eq!(choose_attack_target(&w, p(0, 0), None, false), Some(above));
    assert_eq!(choose_attack_target(&w, p(0, 0), Some(Entity { id: 99 }), false), Some(above));
    let mut w2 = World::new();
    fighter(&mut w2, p(1, 0), Team::Player);
    assert_eq!(choose_attack_target(&w2, p(0, 0), None, false), None);
}
