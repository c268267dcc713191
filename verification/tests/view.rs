use roguelike::components::{CombatComponent, PositionComponent, SpriteComponent, Team};
use roguelike::game::{Animation, Game};
use roguelike::generate_dungeon::Room;
use roguelike::rng::pcg_from_seed;
use roguelike::view::{animation_length_ms, damage_frame, facing_marker, next_floor_opacity};
use roguelike::world::{Entity, World};
use std::collections::VecDeque;

fn game_at(x: i32, y: i32) -> Game {
    let mut ecs = World::new();
    let player = ecs.spawn(
        "Player",
        PositionComponent { x, y },
        SpriteComponent { id: "player" },
        Some(CombatComponent::new(20, 5, 5, 5, 5, Team::Player)),
        None,
        None,
    );
    Game {
        ecs,
        actor_queue: VecDeque::new(),
        player_entity: player,
        player_facing_direction: PositionComponent { x: 0, y: 1 },
        player_inventory: [None; 16],
        player_turns_until_passive_healing: 10,
        rooms: vec![Room { center: PositionComponent { x, y }, x_radius: 3, y_radius: 3 }],
        floor_positions: Vec::new(),
        floor_number: 1,
        rng: pcg_from_seed(1),
        dungeon_generation_rng: pcg_from_seed(2),
        animation_queue: VecDeque::new(),
    }
}

fn add(game: &mut Game, x: i32, y: i32, sprite: &'static str) -> Entity {
    game.ecs.spawn("Thing", PositionComponent { x, y }, SpriteComponent { id: sprite }, None, None, None)
}

#[test]
fn floor_tiles_are_drawn_relative_to_the_player() {
    let mut game = game_at(10, 10);
    game.floor_positions = vec![
        PositionComponent { x: 10, y: 10 },
        PositionComponent { x: 3, y: 17 },
        PositionComponent { x: 2, y: 10 },
        PositionComponent { x: 17, y: 3 },
        PositionComponent { x: 18, y: 3 },
    ];
    let shown = game.visible_floor();
    assert_eq!(
        shown,
        vec![PositionComponent { x: 7, y: 7 }, PositionComponent { x: 0, y: 0 }, PositionComponent { x: 14, y: 14 }]
    );
}

#[test]
fn sprites_on_screen_are_listed_in_table_order() {
    let mut game = game_at(0, 0);
    add(&mut game, 1, 1, "a");
    add(&mut game, 8, 0, "far");
    add(&mut game, -7, -7, "b");
    let shown = game.visible_sprites();
    assert_eq!(
        shown,
        vec![
            (PositionComponent { x: 7, y: 7 }, "player"),
            (PositionComponent { x: 8, y: 6 }, "a"),
            (PositionComponent { x: 0, y: 14 }, "b"),
        ]
    );
}

#[test]
fn a_damage_animation_hides_the_entity_hit() {
    let mut game = game_at(0, 0);
    let hit = add(&mut game, 1, 0, "hit");
    game.animation_queue.push_back(Animation::Damage {
        damaged_entity: hit,
        entity_position: PositionComponent { x: 1, y: 0 },
        entity_sprite: "hit",
        damage_dealt: 3,
        critical_hit: false,
    });
    let shown = game.visible_sprites();
    assert_eq!(shown, vec![(PositionComponent { x: 7, y: 7 }, "player")]);
    game.animation_queue.clear();
    game.animation_queue.push_back(Animation::Miss { entity_position: PositionComponent { x: 1, y: 0 } });
    assert_eq!(game.visible_sprites().len(), 2);
}

#[test]
fn low_health_is_below_three_tenths() {
    let mut game = game_at(0, 0);
    assert!(!game.player_health_low());
    let p = game.player_entity;
    let mut c = game.ecs.get(p).unwrap().combat.unwrap();
    c.current_health = 6;
    game.set_combat(p, c);
    assert!(!game.player_health_low());
    c.current_health = 5;
    game.set_combat(p, c);
    assert!(game.player_health_low());
}

#[test]
fn facing_markers_turn_with_the_facing() {
    let cases = [
        ((0, 1), "direction_indicator", 90),
        ((0, -1), "direction_indicator", 270),
        ((-1, 0), "direction_indicator", 0),
        ((1, 0), "direction_indicator", 180),
        ((-1, 1), "direction_indicator_diagonal", 0),
        ((-1, -1), "direction_indicator_diagonal", 270),
        ((1, -1), "direction_indicator_diagonal", 180),
        ((1, 1), "direction_indicator_diagonal", 90),
    ];
    for ((x, y), image, turn) in cases {
        assert_eq!(facing_marker(PositionComponent { x, y }), (image, turn));
    }
}

#[test]
fn animations_last_400_ms_but_the_floor_banner_a_second() {
    assert_eq!(animation_length_ms(&Animation::NextFloor { floor_number: 2 }), 1000);
    assert_eq!(animation_length_ms(&Animation::Miss { entity_position: PositionComponent { x: 0, y: 0 } }), 400);
}

#[test]
fn damage_animation_blinks_and_bursts() {
    assert_eq!(damage_frame(0), (127, 0));
    assert_eq!(damage_frame(99), (127, 1));
    assert_eq!(damage_frame(150), (255, 2));
    assert_eq!(damage_frame(250), (127, 3));
    assert_eq!(damage_frame(399), (255, 5));
    assert_eq!(damage_frame(5000), (127, 6));
}

#[test]
fn floor_banner_fades_after_400_ms() {
    assert_eq!(next_floor_opacity(0), 255);
    assert_eq!(next_floor_opacity(400), 255);
    assert_eq!(next_floor_opacity(500), 128);
    assert_eq!(next_floor_opacity(1000), 1);
    assert_eq!(next_floor_opacity(70000), 1);
}
