use roguelike::ai::{find_near_ally, PatrollingAI, StationaryAI};
use roguelike::combat::{attack, can_attack, damage, heal};
use roguelike::components::{CombatComponent, PositionComponent, SpriteComponent, Team};
use roguelike::game::Game;
use roguelike::generate_dungeon::Room;
use roguelike::movement::{can_move, direction_for_step, direction_offset, try_move, try_move_towards, Direction};
use roguelike::rng::pcg_from_seed;
use roguelike::world::{Entity, World};
use std::collections::VecDeque;

fn p(x: i32, y: i32) -> PositionComponent {
    PositionComponent { x, y }
}

fn small_game() -> Game {
    let mut ecs = World::new();
    let player = ecs.spawn("Player", p(0, 0), SpriteComponent { id: "player" }, Some(CombatComponent::new(20, 5, 5, 5, 5, Team::Player)), None, None);
    Game {
        ecs,
        actor_queue: VecDeque::new(),
        player_entity: player,
        player_facing_direction: p(0, 1),
        player_inventory: [None; 16],
        player_turns_until_passive_healing: 10,
        rooms: vec![Room { center: p(0, 0), x_radius: 3, y_radius: 3 }],
        floor_positions: Vec::new(),
        floor_number: 1,
        rng: pcg_from_seed(1),
        dungeon_generation_rng: pcg_from_seed(2),
        animation_queue: VecDeque::new(),
    }
}

fn monster(game: &mut Game, at: PositionComponent, health: u32) -> Entity {
    game.ecs.spawn("Dummy", at, SpriteComponent { id: "dummy" }, Some(CombatComponent::new(health, 4, 4, 4, 4, Team::Enemy)), None, None)
}

fn health(game: &Game, e: Entity) -> u32 {
    game.ecs.get(e).unwrap().combat.unwrap().current_health
}

#[test]
fn damage_and_heal_stay_within_bounds() {
    let mut game = small_game();
    let m = monster(&mut game, p(2, 0), 10);
    assert!(!damage(m, 4, &mut game));
    assert_eq!(health(&game, m), 6);
    heal(m, 100, &mut game);
    assert_eq!(health(&game, m), 10);
    assert!(damage(m, 10, &mut game));
    assert!(!game.ecs.contains(m));
    let pl = game.player_entity;
    assert!(damage(pl, 30, &mut game));
    assert_eq!(health(&game, pl), 0);
}

#[test]
fn an_attack_pattern_turns_until_it_reaches_a_foe() {
    let mut game = small_game();
    let attacker = monster(&mut game, p(5, 5), 10);
    let offsets = vec![p(1, 0), p(2, 0)];
    assert!(!can_attack(attacker, &offsets, &game));
    let victim_idx = game.ecs.index_of(game.player_entity).unwrap();
    let mut rec = game.ecs.record_at(victim_idx);
    rec.position = p(5, 7);
    game.ecs.set_record(victim_idx, rec);
    assert!(can_attack(attacker, &offsets, &game));
    attack(attacker, 3, &offsets, &mut game);
    assert_eq!(health(&game, game.player_entity), 17);
    let friend = monster(&mut game, p(6, 5), 10);
    attack(attacker, 3, &offsets, &mut game);
    assert_eq!(health(&game, friend), 10);
    assert_eq!(health(&game, game.player_entity), 14);
}

#[test]
fn steps_follow_the_eight_directions() {
    assert_eq!(direction_offset(Direction::UpLeft), p(-1, 1));
    assert_eq!(direction_offset(Direction::DownRight), p(1, -1));
    assert_eq!(direction_for_step(0, -1), Some(Direction::Down));
    assert_eq!(direction_for_step(2, 0), None);
    let mut game = small_game();
    let m = monster(&mut game, p(1, 0), 10);
    let pl = game.player_entity;
    assert!(!can_move(pl, Direction::Right, &game));
    assert!(try_move(pl, Direction::Right, &mut game).is_err());
    assert_eq!(game.player_facing_direction, p(1, 0));
    assert!(try_move(pl, Direction::UpRight, &mut game).is_ok());
    assert_eq!(game.ecs.get(pl).unwrap().position, p(1, 1));
    assert!(try_move(m, Direction::Down, &mut game).is_ok());
    assert_eq!(game.player_facing_direction, p(1, 1));
}

#[test]
fn moving_towards_a_goal_stops_beside_it() {
    let mut game = small_game();
    let m = monster(&mut game, p(4, 0), 10);
    assert!(try_move_towards(m, p(0, 0), &mut game).is_ok());
    assert_eq!(game.ecs.get(m).unwrap().position.x, 3);
    assert!(try_move_towards(m, p(0, 0), &mut game).is_ok());
    assert!(try_move_towards(m, p(0, 0), &mut game).is_ok());
    let at = game.ecs.get(m).unwrap().position;
    assert_eq!(at.x.abs() + at.y.abs(), 1);
    assert!(try_move_towards(m, p(0, 0), &mut game).is_err());
}

#[test]
fn waiting_monsters_notice_the_player_within_four_tiles() {
    let mut game = small_game();
    let m = monster(&mut game, p(4, -4), 10);
    assert_eq!(find_near_ally(&game.ecs, p(4, -4)), Some(game.player_entity));
    assert_eq!(find_near_ally(&game.ecs, p(5, 0)), None);
    let mut ai = StationaryAI { attack_offsets: vec![p(1, 0)], damage_amount: 2, target: None };
    ai.run(&mut game, m);
    assert_eq!(ai.target, Some(game.player_entity));
    ai.run(&mut game, m);
    let after = game.ecs.get(m).unwrap().position;
    assert!((after.x - 4).abs() <= 1 && (after.y + 4).abs() <= 1 && after != p(4, -4));
}

#[test]
fn patrolling_monsters_pick_a_goal_in_a_room() {
    let mut game = small_game();
    let m = monster(&mut game, p(30, 30), 10);
    let mut ai = PatrollingAI { attack_offsets: vec![p(1, 0)], damage_amount: 2, target: None, patrol_goal: None };
    ai.run(&mut game, m);
    let g = ai.patrol_goal.unwrap_or(p(0, 0));
    assert!(g.x.abs() <= 3 && g.y.abs() <= 3);
}

#[test]
fn patrolling_monsters_give_up_a_far_target() {
    let mut game = small_game();
    let m = monster(&mut game, p(30, 30), 10);
    let pl = game.player_entity;
    let mut ai = PatrollingAI { attack_offsets: vec![p(1, 0)], damage_amount: 2, target: Some(pl), patrol_goal: Some(p(1, 1)) };
    ai.run(&mut game, m);
    assert_eq!(ai.target, None);
    assert_eq!(ai.patrol_goal, Some(p(1, 1)));
    assert_eq!(game.ecs.get(m).unwrap().position, p(30, 30));
    ai.run(&mut game, m);
    assert_eq!(ai.patrol_goal, Some(p(1, 1)));
    assert_ne!(game.ecs.get(m).unwrap().position, p(30, 30));
}

#[test]
fn steps_go_on_past_a_million_tiles() {
    let mut game = small_game();
    let m = monster(&mut game, p(1_000_000, 0), 10);
    assert!(try_move(m, Direction::Right, &mut game).is_ok());
    assert_eq!(game.ecs.get(m).unwrap().position, p(1_000_001, 0));
    let edge = monster(&mut game, p(2_147_483_646, 5), 10);
    assert!(try_move(edge, Direction::Right, &mut game).is_err());
    assert!(try_move(edge, Direction::Left, &mut game).is_ok());
}
