use roguelike::attack::{can_attack, damage, try_attack};
use roguelike::data::{
    Attackable, Direction, GameState, Intangible, Item, ItemSlot, ItemUse, MessageColor, Name, Player, Position, Spawner,
    Sprite, Staircase,
};
use roguelike::drain_crystals::drain_crystals_system;
use roguelike::end_of_turn::end_of_turn;
use roguelike::items::{
    create_makeshift_dagger, create_random_scroll, create_scroll_of_lightning, find_lightning_targets, use_item,
};
use roguelike::rng::pcg_from_seed;
use roguelike::level::{is_tile_free, try_move, Level, LevelRecord};
use roguelike::player_controller::{PlayerAction, PlayerActed, PlayerControllerSystem};
use roguelike::systems::GenerateDungeonSystem;
use roguelike::world::Entity;

fn parts() -> LevelRecord {
    LevelRecord {
        entity: Entity { id: 0 },
        name: None,
        position: None,
        sprite: None,
        attackable: None,
        player: None,
        staircase: None,
        spawner: None,
        item: None,
        intangible: None,
        ai: None,
        counter: None,
    }
}

fn monster(level: &mut Level, name: &'static str, x: i16, y: i16, health: u32) -> Entity {
    level.spawn(LevelRecord {
        name: Some(Name::new(name, false)),
        position: Some(Position::new(x, y)),
        sprite: Some(Sprite::new("bat")),
        attackable: Some(Attackable::new(health, 3, false)),
        ..parts()
    })
}

fn dagger(level: &mut Level) -> Entity {
    level.spawn(LevelRecord {
        name: Some(Name::new("Makeshift Dagger", false)),
        item: Some(Item::new(0, ItemUse::Strike { damage: 8, min_range: 1, max_range: 1 })),
        sprite: Some(Sprite::new("makeshift_dagger")),
        ..parts()
    })
}

fn with_player(x: i16, y: i16) -> (Level, Entity, Entity) {
    let mut level = Level::new();
    let d = dagger(&mut level);
    let p = level.spawn(LevelRecord {
        name: Some(Name::new("Player", false)),
        position: Some(Position::new(x, y)),
        sprite: Some(Sprite::new("player")),
        attackable: Some(Attackable::new(20, 0, false)),
        player: Some(Player::new(d)),
        ..parts()
    });
    level.game_state = GameState::PlayerTurn;
    (level, p, d)
}

fn scroll_item(level: &mut Level, kind: ItemUse) -> Entity {
    level.spawn(LevelRecord { item: Some(Item::new(0, kind)), ..parts() })
}

fn rec(level: &Level, e: Entity) -> LevelRecord {
    level.records[level.index_of(e).unwrap()]
}

#[test]
fn spawned_entities_get_fresh_ids_and_can_be_deleted() {
    let mut level = Level::new();
    let a = monster(&mut level, "A", 1, 1, 3);
    let b = monster(&mut level, "B", 2, 2, 3);
    assert_eq!((a.id, b.id, level.next_id), (0, 1, 2));
    assert!(level.delete_entity(a));
    assert!(!level.delete_entity(a));
    assert_eq!(level.index_of(b), Some(0));
    assert_eq!(level.index_of(a), None);
}

#[test]
fn player_starts_facing_up_with_200_crystals_and_its_dagger() {
    let (level, p, d) = with_player(0, 0);
    let pl = rec(&level, p).player.unwrap();
    assert_eq!(pl.facing_direction, Direction::Up);
    assert_eq!(pl.crystals, 200);
    assert_eq!(pl.inventory[0], Some(d));
    assert!(pl.inventory[1..].iter().all(|s| s.is_none()));
    assert_eq!((pl.turns_taken, pl.heal_turns_left), (0, 10));
}

#[test]
fn attacks_need_a_straight_line_within_range() {
    let (mut level, p, _) = with_player(0, 0);
    let near = monster(&mut level, "Near", 0, 1, 5);
    let diagonal = monster(&mut level, "Diag", 1, 1, 5);
    let far = monster(&mut level, "Far", 0, -3, 5);
    assert!(can_attack(1, 1, p, near, &level));
    assert!(!can_attack(1, 1, p, diagonal, &level));
    assert!(!can_attack(1, 2, p, far, &level));
    assert!(can_attack(2, 3, p, far, &level));
}

#[test]
fn a_hit_takes_health_and_a_kill_pays_crystals() {
    let (mut level, p, _) = with_player(0, 0);
    let bat = monster(&mut level, "Bat", 0, 1, 5);
    assert_eq!(damage(3, true, Some(p), bat, &mut level), (false, 3));
    assert_eq!(rec(&level, bat).attackable.unwrap().current_health, 2);
    assert_eq!(damage(3, true, Some(p), bat, &mut level), (true, 3));
    assert_eq!(level.index_of(bat), None);
    assert_eq!(rec(&level, p).player.unwrap().crystals, 203);
}

#[test]
fn oozing_attackers_add_stacks_on_melee_hits() {
    let (mut level, p, _) = with_player(0, 0);
    let ooze = monster(&mut level, "Ooze", 0, 1, 9);
    let i = level.index_of(ooze).unwrap();
    level.records[i].attackable.as_mut().unwrap().is_oozing = true;
    assert_eq!(damage(2, true, Some(ooze), p, &mut level), (false, 2));
    assert_eq!(damage(2, true, Some(ooze), p, &mut level), (false, 3));
    assert_eq!(damage(2, false, Some(ooze), p, &mut level), (false, 4));
    let a = rec(&level, p).attackable.unwrap();
    assert_eq!((a.current_health, a.oozed_stacks), (11, 2));
}

#[test]
fn a_target_with_no_health_takes_nothing() {
    let (mut level, p, _) = with_player(0, 0);
    let i = level.index_of(p).unwrap();
    level.records[i].attackable.as_mut().unwrap().current_health = 0;
    assert_eq!(damage(5, false, None, p, &mut level), (true, 0));
    assert!(level.index_of(p).is_some());
}

#[test]
fn an_explosion_hits_whatever_is_in_the_blast() {
    let (mut level, p, _) = with_player(0, 0);
    let husk = monster(&mut level, "Husk", 5, 5, 1);
    let i = level.index_of(husk).unwrap();
    level.records[i].attackable.as_mut().unwrap().explode_on_death = (4, 2);
    let beside = monster(&mut level, "Beside", 6, 6, 10);
    let outside = monster(&mut level, "Outside", 8, 5, 10);
    let (died, dealt) = damage(1, false, None, husk, &mut level);
    assert!(died && dealt == 1);
    assert_eq!(rec(&level, beside).attackable.unwrap().current_health, 6);
    assert_eq!(rec(&level, outside).attackable.unwrap().current_health, 10);
    // The blast only bounds how far up and right a victim may stand.
    assert_eq!(rec(&level, p).attackable.unwrap().current_health, 16);
    assert!(level.message_log.clone().recent_messages(0).iter().any(|m| m.text == "Husk exploded!"));
}

#[test]
fn a_dead_boss_rewards_the_player_and_leaves_stairs() {
    let (mut level, p, _) = with_player(0, 0);
    let boss = level.spawn(LevelRecord {
        name: Some(Name::new("Boss", false)),
        position: Some(Position::new(3, 0)),
        attackable: Some(Attackable::new(2, 50, true)),
        ..parts()
    });
    let i = level.index_of(p).unwrap();
    level.records[i].attackable.as_mut().unwrap().current_health = 4;
    assert_eq!(damage(9, false, None, boss, &mut level), (true, 9));
    let a = rec(&level, p).attackable.unwrap();
    assert_eq!((a.max_health, a.current_health), (25, 25));
    assert_eq!(rec(&level, p).player.unwrap().crystals, 250);
    let stairs = level.records.iter().find(|r| r.staircase.is_some()).unwrap();
    assert_eq!(stairs.position, Some(Position::new(3, 0)));
}

#[test]
fn low_health_hastens_the_spawners() {
    let (mut level, p, _) = with_player(0, 0);
    let spawner = level.spawn(LevelRecord { spawner: Some(Spawner::new()), position: Some(Position::new(9, 9)), ..parts() });
    let i = level.index_of(p).unwrap();
    level.records[i].attackable.as_mut().unwrap().lower_spawn_times = (500, 25);
    level.records[i].attackable.as_mut().unwrap().current_health = 10;
    damage(1, false, None, p, &mut level);
    assert_eq!(rec(&level, spawner).spawner.unwrap().turns_per_spawn, 10);
    let log = level.message_log.clone().recent_messages(0).iter().map(|m| m.text.clone()).collect::<Vec<_>>();
    assert_eq!(log, vec!["The air around you feels more... dangerous...".to_string()]);
}

#[test]
fn try_attack_reports_the_damage() {
    let (mut level, p, _) = with_player(0, 0);
    let bat = monster(&mut level, "Phase Bat", 0, 1, 6);
    assert_eq!(try_attack(3, 1, 1, bat, p, &mut level), Ok(false));
    let texts = level.message_log.clone().recent_messages(0).iter().map(|m| m.text.clone()).collect::<Vec<_>>();
    assert_eq!(texts, vec!["Phase Bat attacked Player for 3 damage".to_string()]);
    assert_eq!(try_attack(3, 2, 5, bat, p, &mut level), Err(()));
    assert_eq!(rec(&level, p).attackable.unwrap().current_health, 17);
}

#[test]
fn moving_needs_a_free_tile_and_no_hold() {
    let (mut level, p, _) = with_player(0, 0);
    monster(&mut level, "Wall", 0, 1, 5);
    level.spawn(LevelRecord { position: Some(Position::new(1, 0)), intangible: Some(Intangible {}), ..parts() });
    assert!(!is_tile_free(&level, Position::new(0, 1)));
    assert!(is_tile_free(&level, Position::new(1, 0)));
    assert_eq!(try_move(p, Direction::Up, &mut level), Err(()));
    assert_eq!(try_move(p, Direction::Right, &mut level), Ok(()));
    assert_eq!(rec(&level, p).position, Some(Position::new(1, 0)));
    let i = level.index_of(p).unwrap();
    level.records[i].attackable.as_mut().unwrap().cant_move_turns = 2;
    assert_eq!(try_move(p, Direction::Right, &mut level), Err(()));
}

#[test]
fn the_dagger_strikes_what_the_player_faces() {
    let (mut level, p, d) = with_player(0, 0);
    let bat = monster(&mut level, "Bat", 0, 1, 10);
    let r = use_item(ItemUse::Strike { damage: 8, min_range: 1, max_range: 1 }, d, p, 0, &mut level, &mut pcg_from_seed(1));
    assert!(r.should_end_turn && !r.should_consume_item);
    assert_eq!(rec(&level, bat).attackable.unwrap().current_health, 2);
    let i = level.index_of(p).unwrap();
    level.records[i].player.as_mut().unwrap().facing_direction = Direction::Left;
    let r = use_item(ItemUse::Strike { damage: 8, min_range: 1, max_range: 1 }, d, p, 0, &mut level, &mut pcg_from_seed(1));
    assert!(!r.should_end_turn);
}

#[test]
fn entanglement_holds_monsters_nearby() {
    let (mut level, p, _) = with_player(0, 0);
    let close = monster(&mut level, "Close", 5, -5, 10);
    let far = monster(&mut level, "Far", 6, 0, 10);
    let r = use_item(ItemUse::Entanglement, scroll_item(&mut level, ItemUse::Entanglement), p, 0, &mut level, &mut pcg_from_seed(1));
    assert!(r.should_end_turn && r.should_consume_item);
    let a = rec(&level, close).attackable.unwrap();
    assert_eq!((a.cant_attack_turns, a.cant_move_turns), (8, 16));
    assert_eq!(rec(&level, far).attackable.unwrap().cant_move_turns, 0);
    assert_eq!(rec(&level, p).attackable.unwrap().cant_move_turns, 0);
}

#[test]
fn shadows_conceal_monsters_and_spawns() {
    let (mut level, p, _) = with_player(0, 0);
    let bat = monster(&mut level, "Bat", 5, 5, 10);
    let sp = level.spawn(LevelRecord { spawner: Some(Spawner::new()), ..parts() });
    use_item(ItemUse::Shadows, scroll_item(&mut level, ItemUse::Shadows), p, 0, &mut level, &mut pcg_from_seed(1));
    assert_eq!(rec(&level, bat).sprite.unwrap().id, "concealed");
    assert_eq!(rec(&level, p).sprite.unwrap().id, "player");
    assert!(rec(&level, sp).spawner.unwrap().spawn_concealed);
}

#[test]
fn passing_counts_the_turn_and_hands_over() {
    let (mut level, p, _) = with_player(0, 0);
    let mut system = PlayerControllerSystem::new();
    let mut generator = GenerateDungeonSystem::new();
    assert_eq!(system.run(&mut generator, &mut level, &mut pcg_from_seed(1), 0), PlayerActed(false));
    system.action = PlayerAction::Pass;
    assert_eq!(system.run(&mut generator, &mut level, &mut pcg_from_seed(1), 0), PlayerActed(true));
    assert_eq!(system.action, PlayerAction::Idle);
    assert_eq!(level.game_state, GameState::EnemyTurn);
    let pl = rec(&level, p).player.unwrap();
    assert_eq!((pl.turns_taken, pl.heal_turns_left), (1, 9));
}

#[test]
fn a_blocked_move_becomes_a_strike() {
    let (mut level, p, _) = with_player(0, 0);
    let bat = monster(&mut level, "Bat", 1, 0, 10);
    let mut system = PlayerControllerSystem::new();
    let mut generator = GenerateDungeonSystem::new();
    system.action = PlayerAction::Move(Direction::Right);
    assert_eq!(system.run(&mut generator, &mut level, &mut pcg_from_seed(1), 0), PlayerActed(false));
    assert_eq!(system.action, PlayerAction::UseItem(ItemSlot::One));
    assert_eq!(rec(&level, p).player.unwrap().facing_direction, Direction::Right);
    assert_eq!(system.run(&mut generator, &mut level, &mut pcg_from_seed(1), 0), PlayerActed(true));
    assert_eq!(rec(&level, bat).attackable.unwrap().current_health, 2);
}

#[test]
fn interacting_picks_up_the_item_faced() {
    let (mut level, p, _) = with_player(0, 0);
    let scroll = level.spawn(LevelRecord {
        name: Some(Name::new("Scroll of Shadows", true)),
        position: Some(Position::new(0, 1)),
        item: Some(Item::new(0, ItemUse::Shadows)),
        ..parts()
    });
    let mut system = PlayerControllerSystem::new();
    let mut generator = GenerateDungeonSystem::new();
    system.action = PlayerAction::Interact;
    assert_eq!(system.run(&mut generator, &mut level, &mut pcg_from_seed(1), 0), PlayerActed(true));
    assert_eq!(rec(&level, scroll).position, None);
    assert_eq!(rec(&level, p).player.unwrap().inventory[1], Some(scroll));
    let texts = level.message_log.clone().recent_messages(0).iter().map(|m| m.text.clone()).collect::<Vec<_>>();
    assert_eq!(texts, vec!["You picked up: ???".to_string()]);
    system.action = PlayerAction::UseItem(ItemSlot::Two);
    assert_eq!(system.run(&mut generator, &mut level, &mut pcg_from_seed(1), 0), PlayerActed(true));
    assert_eq!(level.index_of(scroll), None);
    assert_eq!(rec(&level, p).player.unwrap().inventory[1], None);
}

#[test]
fn taking_the_stairs_rests_and_lays_out_a_new_floor() {
    let (mut level, p, d) = with_player(4, 4);
    level.spawn(LevelRecord {
        name: Some(Name::new("Staircase", false)),
        position: Some(Position::new(4, 5)),
        staircase: Some(Staircase {}),
        ..parts()
    });
    let bat = monster(&mut level, "Bat", 9, 9, 3);
    let i = level.index_of(p).unwrap();
    {
        let a = level.records[i].attackable.as_mut().unwrap();
        a.current_health = 5;
        a.blight_stacks = 3;
    }
    let mut system = PlayerControllerSystem::new();
    let mut generator = GenerateDungeonSystem::new();
    system.action = PlayerAction::Interact;
    assert_eq!(system.run(&mut generator, &mut level, &mut pcg_from_seed(1), 0), PlayerActed(true));
    assert_eq!(level.index_of(bat), None);
    assert!(level.index_of(d).is_some());
    let r = rec(&level, p);
    assert_eq!(r.position, Some(Position::new(0, 0)));
    let a = r.attackable.unwrap();
    assert_eq!((a.current_health, a.blight_stacks), (9, 0));
    assert_eq!(level.records.iter().filter(|r| r.staircase.is_some()).count(), 1);
    assert!(level.records.iter().any(|r| r.name.map(|n| n.text) == Some("Wall")));
}

#[test]
fn crystals_drain_with_warnings() {
    let (mut level, p, _) = with_player(0, 0);
    let i = level.index_of(p).unwrap();
    level.records[i].player.as_mut().unwrap().turns_taken = 600;
    drain_crystals_system(&mut level);
    assert_eq!(rec(&level, p).player.unwrap().crystals, 195);
    let mut log = level.message_log.clone();
    let shown = log.recent_messages(0);
    assert_eq!(shown.len(), 1);
    assert_eq!(shown[0].color, MessageColor::Orange);
    level.records[i].player.as_mut().unwrap().turns_taken = 499;
    drain_crystals_system(&mut level);
    assert_eq!(rec(&level, p).player.unwrap().crystals, 195);
    level.records[i].player.as_mut().unwrap().turns_taken = 10_000;
    drain_crystals_system(&mut level);
    assert_eq!(rec(&level, p).player.unwrap().crystals, 185);
}

#[test]
fn holds_wear_off_and_blight_bites_at_the_end_of_turn() {
    let (mut level, p, _) = with_player(0, 0);
    let bat = monster(&mut level, "Bat", 4, 4, 3);
    let i = level.index_of(bat).unwrap();
    {
        let a = level.records[i].attackable.as_mut().unwrap();
        a.cant_move_turns = 2;
        a.blight_stacks = 1;
    }
    // On the player's turn only the player's turn ends.
    end_of_turn(&mut level);
    assert_eq!(rec(&level, bat).attackable.unwrap().cant_move_turns, 2);
    level.game_state = GameState::EnemyTurn;
    end_of_turn(&mut level);
    let a = rec(&level, bat).attackable.unwrap();
    assert_eq!((a.cant_move_turns, a.blight_stacks, a.current_health), (1, 0, 2));
    let texts = level.message_log.clone().recent_messages(0).iter().map(|m| m.text.clone()).collect::<Vec<_>>();
    assert_eq!(texts, vec!["Bat took 1 damage from blight".to_string()]);
    assert_eq!(rec(&level, p).attackable.unwrap().current_health, 20);
}

#[test]
fn the_dagger_is_made_ready_to_strike() {
    let mut level = Level::new();
    let d = create_makeshift_dagger(Some(Position::new(2, 2)), &mut level);
    let r = rec(&level, d);
    assert_eq!(r.name.unwrap().text, "Makeshift Dagger");
    assert_eq!(r.item.unwrap().try_use, ItemUse::Strike { damage: 8, min_range: 1, max_range: 1 });
    assert_eq!(r.position, Some(Position::new(2, 2)));
}

#[test]
fn scrolls_look_as_the_scroll_colours_say() {
    let mut rng = pcg_from_seed(4);
    let mut scroll_rng = roguelike::data::RNG(pcg_from_seed(5));
    let scrolls = roguelike::data::ScrollInfo::new(&mut scroll_rng);
    let mut level = Level::new();
    let s = create_scroll_of_lightning(None, &scrolls, &mut level);
    let r = rec(&level, s);
    assert_eq!(r.sprite.unwrap().id, scrolls.scroll_of_lightning_sprite);
    assert!(r.name.unwrap().concealed);
    assert_eq!(r.position, None);
    for _ in 0..10 {
        let s = create_random_scroll(None, &scrolls, &mut level, &mut rng);
        assert!(rec(&level, s).name.unwrap().text.starts_with("Scroll of"));
    }
}

#[test]
fn lightning_jumps_between_monsters_three_tiles_apart() {
    let (mut level, p, _) = with_player(0, 0);
    let a = monster(&mut level, "A", 3, 0, 20);
    let b = monster(&mut level, "B", 6, 3, 20);
    let c = monster(&mut level, "C", 10, 3, 20);
    let targets = find_lightning_targets(&level, Position::new(0, 0));
    assert_eq!(targets, vec![a, b]);
    let r = use_item(ItemUse::Lightning, scroll_item(&mut level, ItemUse::Lightning), p, 0, &mut level, &mut pcg_from_seed(1));
    assert!(r.should_end_turn && r.should_consume_item);
    assert_eq!(health_of(&level, a), 11);
    assert_eq!(health_of(&level, b), 11);
    assert_eq!(health_of(&level, c), 20);
    assert_eq!(health_of(&level, p), 20);
}

#[test]
fn displacement_lands_on_a_free_intangible_tile() {
    let (mut level, p, _) = with_player(0, 0);
    level.spawn(LevelRecord { position: Some(Position::new(7, 7)), intangible: Some(Intangible {}), ..parts() });
    level.spawn(LevelRecord { position: Some(Position::new(8, 8)), intangible: Some(Intangible {}), ..parts() });
    monster(&mut level, "Blocker", 8, 8, 3);
    let r = use_item(ItemUse::Displacement, scroll_item(&mut level, ItemUse::Displacement), p, 0, &mut level, &mut pcg_from_seed(2));
    assert!(r.should_end_turn && r.should_consume_item);
    assert_eq!(rec(&level, p).position, Some(Position::new(7, 7)));
}

fn health_of(level: &Level, e: Entity) -> u32 {
    rec(level, e).attackable.unwrap().current_health
}

#[test]
fn a_boss_killed_by_damage_heals_the_player_pays_and_leaves_stairs() {
    let (mut level, p, _) = with_player(0, 0);
    let boss = level.spawn(LevelRecord {
        name: Some(Name::new("Boss", false)),
        position: Some(Position::new(0, 1)),
        attackable: Some(Attackable::new(4, 50, true)),
        ..parts()
    });
    let i = level.index_of(p).unwrap();
    level.records[i].attackable.as_mut().unwrap().current_health = 3;
    assert_eq!(damage(10, true, Some(p), boss, &mut level), (true, 10));
    assert_eq!(level.index_of(boss), None);
    let r = rec(&level, p);
    let a = r.attackable.unwrap();
    assert_eq!((a.max_health, a.current_health), (25, 25));
    assert_eq!(r.player.unwrap().crystals, 250);
    let stairs: Vec<_> = level.records.iter().filter(|r| r.staircase.is_some()).collect();
    assert_eq!(stairs.len(), 1);
    assert_eq!(stairs[0].position, Some(Position::new(0, 1)));
}

#[test]
fn laying_out_a_floor_counts_it_and_says_so() {
    let (mut level, _, _) = with_player(0, 0);
    let mut generator = GenerateDungeonSystem::new();
    assert_eq!(level.floor_number, 0);
    generator.lay_out_level(&mut level);
    assert_eq!(level.floor_number, 1);
    generator.lay_out_level(&mut level);
    assert_eq!(level.floor_number, 2);
    let texts = level.message_log.clone().recent_messages(0).iter().map(|m| m.text.clone()).collect::<Vec<_>>();
    assert_eq!(texts, vec!["Entering floor 2".to_string(), "Entering floor 1".to_string()]);
}
