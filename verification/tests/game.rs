use roguelike::components::{CombatComponent, PositionComponent, SpriteComponent, Team};
use roguelike::game::{compute_damage, damage_after_defense, DamageInfo, DamageRoll, DamageType, Game};
use roguelike::generate_dungeon::Room;
use roguelike::rng::pcg_from_seed;
use roguelike::turns::PlayerInput;
use roguelike::world::{Entity, World};
use std::collections::{HashSet, VecDeque};

fn small_game() -> Game {
    let mut ecs = World::new();
    let player = ecs.spawn(
        "Player",
        PositionComponent { x: 0, y: 0 },
        SpriteComponent { id: "player" },
        Some(CombatComponent::new(20, 5, 5, 5, 5, Team::Player)),
        None,
        None,
    );
    Game {
        ecs,
        actor_queue: VecDeque::new(),
        player_entity: player,
        player_facing_direction: PositionComponent { x: 0, y: 1 },
        player_inventory: [None; 16],
        player_turns_until_passive_healing: 10,
        rooms: vec![Room { center: PositionComponent { x: 0, y: 0 }, x_radius: 3, y_radius: 3 }],
        floor_positions: Vec::new(),
        floor_number: 1,
        rng: pcg_from_seed(1),
        dungeon_generation_rng: pcg_from_seed(2),
        animation_queue: VecDeque::new(),
    }
}

fn add_monster(game: &mut Game, x: i32, y: i32, health: u32) -> Entity {
    game.ecs.spawn(
        "Dummy",
        PositionComponent { x, y },
        SpriteComponent { id: "dummy" },
        Some(CombatComponent::new(health, 4, 4, 4, 4, Team::Enemy)),
        None,
        None,
    )
}

fn health(game: &Game, e: Entity) -> u32 {
    game.ecs.get(e).unwrap().combat.unwrap().current_health
}

#[test]
fn defence_absorbs_half_the_statistic_rounded_up() {
    let c = CombatComponent::new(20, 5, 8, 3, 4, Team::Enemy);
    assert_eq!(damage_after_defense(10, DamageType::Strength, &c), 7);
    assert_eq!(damage_after_defense(10, DamageType::Focus, &c), 6);
    assert_eq!(damage_after_defense(10, DamageType::Agility, &c), 8);
    assert_eq!(damage_after_defense(10, DamageType::Untyped, &c), 10);
    assert_eq!(damage_after_defense(1, DamageType::Focus, &c), 0);
    let mut immune = c;
    immune.magic_immune_buff = true;
    assert_eq!(damage_after_defense(50, DamageType::Focus, &immune), 0);
}

#[test]
fn critical_hits_deal_half_again_rounded_and_hits_add_the_spread() {
    let c = CombatComponent::new(20, 4, 4, 4, 4, Team::Enemy);
    let target = Entity { id: 3 };
    let info = DamageInfo { target, damage_amount: 7, damage_type: DamageType::Untyped, variance: true };
    assert_eq!(compute_damage(info, &c, DamageRoll { critical: true, hit: false, spread: 0 }), 11);
    assert_eq!(compute_damage(info, &c, DamageRoll { critical: false, hit: true, spread: 3 }), 10);
    let steady = DamageInfo { variance: false, ..info };
    assert_eq!(compute_damage(steady, &c, DamageRoll { critical: false, hit: false, spread: 0 }), 7);
}

#[test]
fn a_steady_blow_removes_a_monster_at_zero_health() {
    let mut game = small_game();
    let m = add_monster(&mut game, 2, 0, 5);
    game.damage_entity(DamageInfo { target: m, damage_amount: 3, damage_type: DamageType::Untyped, variance: false });
    assert_eq!(health(&game, m), 2);
    assert_eq!(game.animation_queue.len(), 1);
    game.damage_entity(DamageInfo { target: m, damage_amount: 3, damage_type: DamageType::Untyped, variance: false });
    assert!(!game.ecs.contains(m));
}

#[test]
fn the_player_stays_at_zero_health() {
    let mut game = small_game();
    let p = game.player_entity;
    game.damage_entity(DamageInfo { target: p, damage_amount: 100, damage_type: DamageType::Untyped, variance: false });
    assert!(game.ecs.contains(p));
    assert_eq!(health(&game, p), 0);
}

#[test]
fn a_monster_that_explodes_hurts_everyone_near_it() {
    let mut game = small_game();
    let bomb = add_monster(&mut game, 2, 0, 1);
    let near = add_monster(&mut game, 3, 1, 10);
    let far = add_monster(&mut game, 6, 0, 10);
    let idx = game.ecs.index_of(bomb).unwrap();
    let mut rec = game.ecs.record_at(idx);
    let mut c = rec.combat.unwrap();
    c.explode_on_death_buff = (4, 1);
    rec.combat = Some(c);
    game.ecs.set_record(idx, rec);
    game.damage_entity(DamageInfo { target: bomb, damage_amount: 1, damage_type: DamageType::Untyped, variance: false });
    assert!(!game.ecs.contains(bomb));
    assert_eq!(health(&game, near), 6);
    assert_eq!(health(&game, far), 10);
    assert_eq!(health(&game, game.player_entity), 20);
}

#[test]
fn the_end_of_a_turn_ticks_effects_and_heals_every_tenth_turn() {
    let mut game = small_game();
    let p = game.player_entity;
    let idx = game.ecs.index_of(p).unwrap();
    let mut rec = game.ecs.record_at(idx);
    let mut c = rec.combat.unwrap();
    c.current_health = 10;
    c.burn_debuff = (3, 2);
    c.strength_buff = (5, 1);
    rec.combat = Some(c);
    game.ecs.set_record(idx, rec);
    game.player_turns_until_passive_healing = 1;
    game.entity_end_of_turn(p);
    let c = game.ecs.get(p).unwrap().combat.unwrap();
    assert_eq!(game.player_turns_until_passive_healing, 10);
    assert_eq!(c.current_health, 9);
    assert_eq!(c.burn_debuff, (0, 0));
    assert_eq!(c.strength_buff, (0, 0));
}

#[test]
fn a_burning_monster_dies_at_the_end_of_its_turn() {
    let mut game = small_game();
    let m = add_monster(&mut game, 2, 2, 2);
    let idx = game.ecs.index_of(m).unwrap();
    let mut rec = game.ecs.record_at(idx);
    let mut c = rec.combat.unwrap();
    c.burn_debuff = (3, 4);
    rec.combat = Some(c);
    game.ecs.set_record(idx, rec);
    game.entity_end_of_turn(m);
    assert!(!game.ecs.contains(m));
    assert_eq!(game.player_turns_until_passive_healing, 10);
}

#[test]
fn a_new_game_starts_on_the_first_floor() {
    let game = Game::new(11, 12);
    assert_eq!(game.floor_number, 1);
    assert_eq!(game.player_facing_direction, PositionComponent { x: 0, y: 1 });
    assert_eq!(game.player_turns_until_passive_healing, 10);
    let player = game.ecs.get(game.player_entity).unwrap();
    assert_eq!(player.position, PositionComponent { x: 0, y: 0 });
    let c = player.combat.unwrap();
    assert!((12..=30).contains(&c.max_health));
    assert_eq!(c.current_health, c.max_health);
    assert_eq!(game.rooms[0], Room { center: PositionComponent { x: 0, y: 0 }, x_radius: 3, y_radius: 3 });
    let floor: HashSet<PositionComponent> = game.floor_positions.iter().copied().collect();
    assert_eq!(floor.len(), game.floor_positions.len());
    let staircases: Vec<_> = game.ecs.positions().into_iter().enumerate()
        .filter(|(i, _)| game.ecs.record_at(*i).staircase.is_some())
        .map(|(_, p)| p)
        .collect();
    assert_eq!(staircases.len(), 1);
    assert_eq!(game.animation_queue.len(), 1);
}

#[test]
fn the_same_seeds_make_the_same_game() {
    let a = Game::new(5, 6);
    let b = Game::new(5, 6);
    assert_eq!(a.rooms, b.rooms);
    assert_eq!(a.ecs.positions(), b.ecs.positions());
}

#[test]
fn nothing_happens_while_an_animation_plays() {
    let mut game = Game::new(3, 4);
    let before = game.ecs.positions();
    let used = game.run(Some(PlayerInput { dx: 1, dy: 0, turn_only: false, wait: false, interact: false }));
    assert!(!used);
    assert_eq!(game.ecs.positions(), before);
}

#[test]
fn the_player_moves_and_ends_its_turn() {
    let mut game = small_game();
    let used = game.run(Some(PlayerInput { dx: 1, dy: 0, turn_only: false, wait: false, interact: false }));
    assert!(used);
    assert_eq!(game.ecs.get(game.player_entity).unwrap().position, PositionComponent { x: 1, y: 0 });
    assert_eq!(game.player_facing_direction, PositionComponent { x: 1, y: 0 });
    assert_eq!(game.player_turns_until_passive_healing, 9);
    assert!(game.actor_queue.is_empty());
}

#[test]
fn turning_does_not_end_the_turn() {
    let mut game = small_game();
    let used = game.run(Some(PlayerInput { dx: -1, dy: -1, turn_only: true, wait: false, interact: false }));
    assert!(used);
    assert_eq!(game.ecs.get(game.player_entity).unwrap().position, PositionComponent { x: 0, y: 0 });
    assert_eq!(game.player_facing_direction, PositionComponent { x: -1, y: -1 });
    assert_eq!(game.actor_queue.len(), 1);
    assert_eq!(game.player_turns_until_passive_healing, 10);
}

#[test]
fn a_blocked_move_only_turns() {
    let mut game = small_game();
    add_monster(&mut game, 0, -1, 5);
    let used = game.run(Some(PlayerInput { dx: 0, dy: -1, turn_only: false, wait: false, interact: false }));
    assert!(used);
    assert_eq!(game.ecs.get(game.player_entity).unwrap().position, PositionComponent { x: 0, y: 0 });
    assert_eq!(game.player_facing_direction, PositionComponent { x: 0, y: -1 });
}

#[test]
fn taking_the_stairs_rests_the_player_and_lays_out_the_next_floor() {
    let mut game = small_game();
    let p = game.player_entity;
    let idx = game.ecs.index_of(p).unwrap();
    let mut rec = game.ecs.record_at(idx);
    let mut c = rec.combat.unwrap();
    c.current_health = 5;
    c.focus_buff = (3, 3);
    rec.combat = Some(c);
    game.ecs.set_record(idx, rec);
    game.ecs.spawn("Staircase", PositionComponent { x: 0, y: 1 }, SpriteComponent { id: "staircase" }, None, None, Some(roguelike::components::StaircaseComponent {}));
    let used = game.run(Some(PlayerInput { dx: 0, dy: 0, turn_only: false, wait: false, interact: true }));
    assert!(used);
    assert_eq!(game.floor_number, 2);
    let c = game.ecs.get(p).unwrap().combat.unwrap();
    assert_eq!(c.current_health, 9);
    assert_eq!(c.focus_buff, (0, 0));
    assert_eq!(game.ecs.get(p).unwrap().position, PositionComponent { x: 0, y: 0 });
}

#[test]
fn keys_become_an_input() {
    let i = PlayerInput::from_keys(true, true, true, false, true, false, true);
    assert_eq!(i, PlayerInput { dx: -1, dy: -1, turn_only: true, wait: false, interact: true });
    let j = PlayerInput::from_keys(true, false, false, true, false, true, false);
    assert_eq!(j, PlayerInput { dx: 1, dy: 1, turn_only: false, wait: true, interact: false });
}

#[test]
fn blasts_set_off_further_blasts() {
    let mut game = small_game();
    let bomb = add_monster(&mut game, 2, 0, 1);
    let second = add_monster(&mut game, 3, 0, 4);
    let victim = add_monster(&mut game, 4, 0, 10);
    for (e, buff) in [(bomb, (4, 1)), (second, (5, 1))] {
        let idx = game.ecs.index_of(e).unwrap();
        let mut rec = game.ecs.record_at(idx);
        let mut c = rec.combat.unwrap();
        c.explode_on_death_buff = buff;
        rec.combat = Some(c);
        game.ecs.set_record(idx, rec);
    }
    game.damage_entity(DamageInfo { target: bomb, damage_amount: 1, damage_type: DamageType::Untyped, variance: false });
    assert!(!game.ecs.contains(bomb));
    assert!(!game.ecs.contains(second));
    assert_eq!(health(&game, victim), 5);
    assert_eq!(health(&game, game.player_entity), 20);
    assert_eq!(game.animation_queue.len(), 3);
}
