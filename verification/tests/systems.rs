use roguelike::board::{
    find_player, occupied, Board, Direction, GridPosition, MovementType, Piece, PlayerState, QueuedAttack,
    QueuedMovement,
};
use roguelike::systems::{
    AIAttackPlayerSystem, AdvanceFloorSystem, AttackSystem, DrainCrystalsSystem, GenerateDungeonSystem,
    MovementSystem, PlayerAction, PlayerMoveSystem, PlayerSystem,
};
use roguelike::world::Entity;

fn piece(id: u64, x: i32, y: i32) -> Piece {
    Piece {
        entity: Entity { id },
        position: Some(GridPosition { x, y, facing_direction: Direction::Right }),
        player: None,
        health: None,
        queued_movement: None,
        queued_attack: None,
        attacks_player: false,
        sprite: Some("blue"),
    }
}

fn player(id: u64, x: i32, y: i32) -> Piece {
    Piece {
        player: Some(PlayerState { turns_taken: 0, crystals: 10 }),
        health: Some(3),
        sprite: Some("white"),
        ..piece(id, x, y)
    }
}

fn monster(id: u64, x: i32, y: i32, health: u32) -> Piece {
    Piece { health: Some(health), attacks_player: true, sprite: Some("red"), ..piece(id, x, y) }
}

fn board(pieces: Vec<Piece>) -> Board {
    let next_id = pieces.len() as u64;
    Board { pieces, next_id }
}

#[test]
fn find_player_skips_pieces_without_a_position() {
    let mut ghost = player(0, 0, 0);
    ghost.position = None;
    let pieces = vec![piece(1, 5, 5), ghost, player(2, 1, 1)];
    assert_eq!(find_player(&pieces), Some(2));
    assert_eq!(find_player(&vec![piece(1, 5, 5)]), None);
}

#[test]
fn occupied_looks_at_positions() {
    let pieces = vec![piece(1, 5, 5), player(2, 1, 1)];
    assert!(occupied(&pieces, 5, 5));
    assert!(occupied(&pieces, 1, 1));
    assert!(!occupied(&pieces, 1, 2));
}

#[test]
fn passing_ends_the_turn_and_counts_it() {
    let mut b = board(vec![player(0, 0, 0)]);
    let mut system = PlayerSystem::new();
    system.action = PlayerAction::Pass;
    let mut players_turn = true;
    system.run(&mut b, &mut players_turn);
    assert!(!players_turn);
    assert_eq!(b.pieces[0].player.unwrap().turns_taken, 1);
    assert_eq!(system.action, PlayerAction::Idle);
}

#[test]
fn idle_changes_nothing() {
    let mut b = board(vec![player(0, 0, 0), monster(1, 1, 0, 2)]);
    let before = b.pieces.clone();
    let mut system = PlayerSystem::new();
    let mut players_turn = true;
    system.run(&mut b, &mut players_turn);
    assert!(players_turn);
    assert_eq!(b.pieces, before);
}

#[test]
fn moving_queues_a_move_onto_a_free_tile() {
    let mut b = board(vec![player(0, 3, 4)]);
    let mut system = PlayerSystem::new();
    system.action = PlayerAction::Move(Direction::Up);
    let mut players_turn = true;
    system.run(&mut b, &mut players_turn);
    assert!(!players_turn);
    assert_eq!(
        b.pieces[0].queued_movement,
        Some(QueuedMovement { goal_x: 3, goal_y: 5, movement_type: MovementType::StandOn })
    );
    assert_eq!(b.pieces[0].player.unwrap().turns_taken, 1);
}

#[test]
fn moving_into_a_piece_keeps_the_turn() {
    let mut b = board(vec![player(0, 3, 4), piece(1, 2, 4)]);
    let before = b.pieces.clone();
    let mut system = PlayerSystem::new();
    system.action = PlayerAction::Move(Direction::Left);
    let mut players_turn = true;
    system.run(&mut b, &mut players_turn);
    assert!(players_turn);
    assert_eq!(b.pieces, before);
}

#[test]
fn turning_changes_only_the_facing() {
    let mut b = board(vec![player(0, 3, 4)]);
    let mut system = PlayerSystem::new();
    system.action = PlayerAction::TurnToFace(Direction::Down);
    let mut players_turn = true;
    system.run(&mut b, &mut players_turn);
    assert!(players_turn);
    assert_eq!(b.pieces[0].position, Some(GridPosition { x: 3, y: 4, facing_direction: Direction::Down }));
    assert_eq!(b.pieces[0].player.unwrap().turns_taken, 0);
}

#[test]
fn attacking_queues_an_attack_on_the_faced_fighter() {
    let mut b = board(vec![player(0, 0, 0), monster(7, 1, 0, 2)]);
    let mut system = PlayerSystem::new();
    system.action = PlayerAction::Attack;
    let mut players_turn = true;
    system.run(&mut b, &mut players_turn);
    assert!(!players_turn);
    assert_eq!(b.pieces[0].queued_attack, Some(QueuedAttack { target_entity: Entity { id: 7 } }));
}

#[test]
fn attacking_thin_air_keeps_the_turn() {
    let mut b = board(vec![player(0, 0, 0), monster(7, 0, 1, 2)]);
    let mut system = PlayerSystem::new();
    system.action = PlayerAction::Attack;
    let mut players_turn = true;
    system.run(&mut b, &mut players_turn);
    assert!(players_turn);
    assert_eq!(b.pieces[0].queued_attack, None);
}

#[test]
fn player_move_system_steps_unless_blocked() {
    let mut b = board(vec![player(0, 0, 0), piece(1, 0, -1)]);
    let mut system = PlayerMoveSystem::new();
    system.direction_to_move = Some(Direction::Right);
    system.run(&mut b);
    assert_eq!(b.pieces[0].position, Some(GridPosition { x: 1, y: 0, facing_direction: Direction::Right }));
    assert_eq!(system.direction_to_move, None);
    system.direction_to_move = Some(Direction::Left);
    system.run(&mut b);
    assert_eq!(b.pieces[0].position.unwrap().x, 0);
    let before = b.pieces.clone();
    system.direction_to_move = Some(Direction::Down);
    system.run(&mut b);
    assert_eq!(b.pieces, before);
}

#[test]
fn monsters_next_to_the_player_attack_and_others_close_in() {
    let mut b = board(vec![player(0, 0, 0), monster(1, 1, 0, 2), monster(2, 4, 4, 2), monster(3, 1, 1, 2)]);
    let mut system = AIAttackPlayerSystem::new();
    system.run(&mut b);
    assert_eq!(b.pieces[1].queued_attack, Some(QueuedAttack { target_entity: Entity { id: 0 } }));
    assert_eq!(b.pieces[1].queued_movement, None);
    assert_eq!(
        b.pieces[2].queued_movement,
        Some(QueuedMovement { goal_x: 0, goal_y: 0, movement_type: MovementType::StandNextTo })
    );
    assert_eq!(b.pieces[2].queued_attack, None);
    // A diagonal neighbour does not share a side.
    assert_eq!(b.pieces[3].queued_attack, None);
    assert!(b.pieces[3].queued_movement.is_some());
    assert_eq!(b.pieces[0].queued_attack, None);
}

#[test]
fn an_attack_takes_one_health_and_removes_at_zero() {
    let mut attacker = player(0, 0, 0);
    attacker.queued_attack = Some(QueuedAttack { target_entity: Entity { id: 1 } });
    let mut second = monster(2, 5, 5, 3);
    second.queued_attack = Some(QueuedAttack { target_entity: Entity { id: 0 } });
    let mut b = board(vec![attacker, monster(1, 1, 0, 1), second]);
    let mut system = AttackSystem::new();
    system.run(&mut b);
    assert_eq!(b.pieces.len(), 2);
    assert_eq!(b.pieces[0].entity, Entity { id: 0 });
    assert_eq!(b.pieces[0].health, Some(2));
    assert_eq!(b.pieces[1].entity, Entity { id: 2 });
    assert!(b.pieces.iter().all(|p| p.queued_attack.is_none()));
}

#[test]
fn a_removed_piece_does_not_attack() {
    let mut first = player(0, 0, 0);
    first.queued_attack = Some(QueuedAttack { target_entity: Entity { id: 1 } });
    let mut doomed = monster(1, 1, 0, 1);
    doomed.queued_attack = Some(QueuedAttack { target_entity: Entity { id: 0 } });
    let mut b = board(vec![first, doomed]);
    let mut system = AttackSystem::new();
    system.run(&mut b);
    assert_eq!(b.pieces.len(), 1);
    assert_eq!(b.pieces[0].health, Some(3));
}

#[test]
fn crystals_drain_once_per_new_turn() {
    let mut p = player(0, 0, 0);
    p.player = Some(PlayerState { turns_taken: 600, crystals: 10 });
    let mut b = board(vec![piece(1, 3, 3), p]);
    let mut system = DrainCrystalsSystem::new();
    system.run(&mut b);
    assert_eq!(b.pieces[1].player.unwrap().crystals, 8);
    assert_eq!(system.previous_turns_taken, 1);
    system.previous_turns_taken = 600;
    system.run(&mut b);
    assert_eq!(b.pieces[1].player.unwrap().crystals, 8);
    assert_eq!(system.previous_turns_taken, 600);
}

#[test]
fn crystals_drain_by_the_turn_count_and_stop_at_zero() {
    let cases = [(500u32, 10u32, 10u32), (501, 10, 8), (702, 10, 5), (703, 10, 0), (904, 30, 10), (904, 5, 0)];
    for (turns, crystals, left) in cases {
        let mut p = player(0, 0, 0);
        p.player = Some(PlayerState { turns_taken: turns, crystals });
        let mut b = board(vec![p]);
        let mut system = DrainCrystalsSystem::new();
        system.run(&mut b);
        assert_eq!(b.pieces[0].player.unwrap().crystals, left, "turns {}", turns);
    }
}

#[test]
fn advancing_keeps_only_the_player_at_the_origin() {
    let mut p = player(0, 4, 5);
    p.player = Some(PlayerState { turns_taken: 77, crystals: 3 });
    let mut b = board(vec![piece(1, 3, 3), p, monster(2, 1, 1, 2)]);
    let mut system = AdvanceFloorSystem::new();
    let mut pending = true;
    assert_eq!(system.run(&mut b, &mut pending), 1);
    assert!(!pending);
    assert_eq!(system.current_floor, 2);
    assert_eq!(b.pieces.len(), 1);
    assert_eq!(b.pieces[0].entity, Entity { id: 0 });
    assert_eq!(b.pieces[0].position, Some(GridPosition { x: 0, y: 0, facing_direction: Direction::Right }));
    assert_eq!(b.pieces[0].player, Some(PlayerState { turns_taken: 0, crystals: 3 }));
    pending = true;
    assert_eq!(system.run(&mut b, &mut pending), 2);
}

#[test]
fn a_queued_move_takes_one_step_towards_the_goal() {
    let mut walker = monster(1, 0, 0, 2);
    walker.queued_movement = Some(QueuedMovement { goal_x: 0, goal_y: 3, movement_type: MovementType::StandOn });
    let mut b = board(vec![walker, piece(2, 5, 5)]);
    let mut system = MovementSystem::new();
    system.run(&mut b);
    assert_eq!(b.pieces[0].position, Some(GridPosition { x: 0, y: 1, facing_direction: Direction::Up }));
    assert_eq!(b.pieces[0].queued_movement, None);
    assert_eq!(b.pieces[1], piece(2, 5, 5));
}

#[test]
fn a_queued_move_goes_around_a_piece() {
    let mut walker = monster(1, 0, 0, 2);
    walker.queued_movement = Some(QueuedMovement { goal_x: 2, goal_y: 0, movement_type: MovementType::StandOn });
    let mut b = board(vec![walker, piece(2, 1, 0)]);
    let mut system = MovementSystem::new();
    system.run(&mut b);
    let p = b.pieces[0].position.unwrap();
    assert!((p.x, p.y) == (0, 1) || (p.x, p.y) == (0, -1));
    assert_eq!(b.pieces[0].queued_movement, None);
}

#[test]
fn generated_walls_are_added_after_the_existing_pieces() {
    let mut b = board(vec![player(0, 0, 0)]);
    let mut system = GenerateDungeonSystem::new();
    system.run(&mut b);
    assert!(b.pieces.len() > 1);
    assert_eq!(b.pieces[0], player(0, 0, 0));
    let mut seen = std::collections::HashSet::new();
    for p in &b.pieces[1..] {
        assert_eq!(p.sprite, Some("blue"));
        assert!(p.player.is_none() && p.health.is_none());
        let g = p.position.unwrap();
        assert!(seen.insert((g.x, g.y)), "two walls on one tile");
    }
}
