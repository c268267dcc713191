use roguelike::components::{CombatComponent, PositionComponent, SpriteComponent, StaircaseComponent, Team};
use roguelike::game::Game;
use roguelike::generate_dungeon::Room;
use roguelike::rng::pcg_from_seed;
use roguelike::stages::{
    AITurnStage, GameOverStage, ItemSlot, NewGameStage, PlayerAction, PlayerTurnStage, Stage, StageKeys,
};
use roguelike::world::{Entity, World};
use std::collections::VecDeque;

fn keys() -> StageKeys {
    StageKeys {
        shift: false,
        up: false,
        left: false,
        down: false,
        right: false,
        pass: false,
        interact: false,
        item_one: false,
        item_two: false,
        item_three: false,
        item_four: false,
    }
}

fn small_game() -> Game {
    let mut ecs = World::new();
    let player = ecs.spawn(
        "Player",
        PositionComponent { x: 0, y: 0 },
        SpriteComponent { id: "player" },
        Some(CombatComponent::new(20, 5, 5, 5, 5, Team::Player)),
        None,
        None,
    );
    Game {
        ecs,
        actor_queue: VecDeque::new(),
        player_entity: player,
        player_facing_direction: PositionComponent { x: 0, y: 1 },
        player_inventory: [None; 16],
        player_turns_until_passive_healing: 10,
        rooms: vec![Room { center: PositionComponent { x: 0, y: 0 }, x_radius: 3, y_radius: 3 }],
        floor_positions: Vec::new(),
        floor_number: 1,
        rng: pcg_from_seed(1),
        dungeon_generation_rng: pcg_from_seed(2),
        animation_queue: VecDeque::new(),
    }
}

fn player_health(game: &Game) -> u32 {
    game.ecs.get(game.player_entity).unwrap().combat.unwrap().current_health
}

#[test]
fn keys_choose_an_action_and_later_keys_win() {
    let mut stage = PlayerTurnStage { game: small_game(), action: PlayerAction::Pass };
    assert!(!stage.input(keys()));
    assert_eq!(stage.action, PlayerAction::Idle);
    assert!(stage.input(StageKeys { up: true, down: true, right: true, ..keys() }));
    assert_eq!(stage.action, PlayerAction::Move(PositionComponent { x: 1, y: -1 }));
    stage.input(StageKeys { left: true, shift: true, ..keys() });
    assert_eq!(stage.action, PlayerAction::Turn(PositionComponent { x: -1, y: 0 }));
    stage.input(StageKeys { left: true, pass: true, interact: true, ..keys() });
    assert_eq!(stage.action, PlayerAction::Interact);
    stage.input(StageKeys { pass: true, item_two: true, item_three: true, ..keys() });
    assert_eq!(stage.action, PlayerAction::UseItem(ItemSlot::Three));
    assert!(stage.input(StageKeys { shift: true, ..keys() }));
    assert_eq!(stage.action, PlayerAction::Idle);
}

#[test]
fn turning_keeps_the_players_turn() {
    let stage = PlayerTurnStage { game: small_game(), action: PlayerAction::Turn(PositionComponent { x: 1, y: 1 }) };
    match stage.update() {
        Stage::PlayerTurn(s) => {
            assert_eq!(s.action, PlayerAction::Idle);
            assert_eq!(s.game.player_facing_direction, PositionComponent { x: 1, y: 1 });
        }
        _ => panic!("expected the player's turn"),
    }
}

#[test]
fn moving_hands_the_turn_to_the_monsters() {
    let stage = PlayerTurnStage { game: small_game(), action: PlayerAction::Move(PositionComponent { x: -1, y: 0 }) };
    match stage.update() {
        Stage::AITurn(s) => {
            assert_eq!(s.game.ecs.get(s.game.player_entity).unwrap().position, PositionComponent { x: -1, y: 0 });
            assert_eq!(s.game.player_turns_until_passive_healing, 9);
            match s.update() {
                Stage::PlayerTurn(t) => assert_eq!(t.action, PlayerAction::Idle),
                _ => panic!("expected the player's turn"),
            }
        }
        _ => panic!("expected the monsters' turn"),
    }
}

#[test]
fn dying_of_a_burn_ends_the_game() {
    let mut game = small_game();
    let p = game.player_entity;
    let idx = game.ecs.index_of(p).unwrap();
    let mut rec = game.ecs.record_at(idx);
    let mut c = rec.combat.unwrap();
    c.current_health = 2;
    c.burn_debuff = (3, 2);
    rec.combat = Some(c);
    game.ecs.set_record(idx, rec);
    let stage = PlayerTurnStage { game, action: PlayerAction::Pass };
    match stage.update() {
        Stage::GameOver(s) => {
            assert_eq!(player_health(&s.game), 0);
            assert!(matches!(s.update(), Stage::GameOver(_)));
        }
        _ => panic!("expected the end of the game"),
    }
}

#[test]
fn a_burn_runs_out() {
    let mut game = small_game();
    let p = game.player_entity;
    let idx = game.ecs.index_of(p).unwrap();
    let mut rec = game.ecs.record_at(idx);
    let mut c = rec.combat.unwrap();
    c.burn_debuff = (3, 1);
    rec.combat = Some(c);
    game.ecs.set_record(idx, rec);
    let mut stage = PlayerTurnStage { game, action: PlayerAction::Idle };
    assert!(!stage.end_of_turn());
    let c = stage.game.ecs.get(p).unwrap().combat.unwrap();
    assert_eq!(c.current_health, 17);
    assert_eq!(c.burn_debuff, (0, 0));
}

#[test]
fn the_stairs_lead_to_the_next_floor_on_the_players_turn() {
    let mut game = small_game();
    game.ecs.spawn("Staircase", PositionComponent { x: 0, y: 1 }, SpriteComponent { id: "staircase" }, None, None, Some(StaircaseComponent {}));
    let stage = PlayerTurnStage { game, action: PlayerAction::Interact };
    match stage.update() {
        Stage::PlayerTurn(s) => {
            assert_eq!(s.game.floor_number, 2);
            assert_eq!(s.game.player_turns_until_passive_healing, 9);
        }
        _ => panic!("expected the player's turn"),
    }
}

#[test]
fn monsters_burn_and_die_on_their_turn() {
    let mut game = small_game();
    let m: Entity = game.ecs.spawn(
        "Dummy",
        PositionComponent { x: 2, y: 2 },
        SpriteComponent { id: "dummy" },
        Some(CombatComponent::new(3, 4, 4, 4, 4, Team::Enemy)),
        None,
        None,
    );
    let idx = game.ecs.index_of(m).unwrap();
    let mut rec = game.ecs.record_at(idx);
    let mut c = rec.combat.unwrap();
    c.burn_debuff = (3, 4);
    rec.combat = Some(c);
    game.ecs.set_record(idx, rec);
    match (AITurnStage { game }).update() {
        Stage::PlayerTurn(s) => assert!(!s.game.ecs.contains(m)),
        _ => panic!("expected the player's turn"),
    }
}

#[test]
fn a_new_game_begins_with_the_players_turn() {
    match (NewGameStage {}).update(1, 2) {
        Stage::PlayerTurn(s) => {
            assert_eq!(s.action, PlayerAction::Idle);
            assert_eq!(s.game.floor_number, 1);
        }
        _ => panic!("expected the player's turn"),
    }
    let _ = GameOverStage { game: small_game() }.update();
}

#[test]
fn a_surviving_monster_burns_once_and_its_last_burn_turn_clears_it() {
    let mut game = small_game();
    let mut burner = |name: &'static str, x: i32, burn: (u32, u32)| {
        let e: Entity = game.ecs.spawn(
            name,
            PositionComponent { x, y: 3 },
            SpriteComponent { id: "dummy" },
            Some(CombatComponent::new(10, 4, 4, 4, 4, Team::Enemy)),
            None,
            None,
        );
        let idx = game.ecs.index_of(e).unwrap();
        let mut rec = game.ecs.record_at(idx);
        let mut c = rec.combat.unwrap();
        c.burn_debuff = burn;
        rec.combat = Some(c);
        game.ecs.set_record(idx, rec);
        e
    };
    let long = burner("Long", 2, (2, 3));
    let last = burner("Last", 4, (3, 1));
    match (AITurnStage { game }).update() {
        Stage::PlayerTurn(s) => {
            let c = s.game.ecs.get(long).unwrap().combat.unwrap();
            assert_eq!((c.current_health, c.burn_debuff), (8, (2, 2)));
            let c = s.game.ecs.get(last).unwrap().combat.unwrap();
            assert_eq!((c.current_health, c.burn_debuff), (7, (0, 0)));
            assert_eq!(player_health(&s.game), 20);
        },
        _ => panic!("expected the player's turn"),
    }
}
