use roguelike::data::{Attackable, GameState, ItemSlot, ItemUse, Name, Player, Position, Rarity, Sprite};
use roguelike::items::use_item;
use roguelike::level::{Level, LevelRecord};
use roguelike::player_controller::{PlayerAction, PlayerActed, PlayerControllerSystem};
use roguelike::rng::pcg_from_seed;
use roguelike::systems::GenerateDungeonSystem;
use roguelike::weapons::{
    create_blight_bow, create_edge_of_ebony, create_improvised_spellbook, create_jump_saber, create_netherbane,
    create_random_layer1, create_twister_staff, Layer1Item,
};
use roguelike::world::Entity;

fn parts() -> LevelRecord {
    LevelRecord {
        entity: Entity { id: 0 },
        name: None,
        position: None,
        sprite: None,
        attackable: None,
        player: None,
        staircase: None,
        spawner: None,
        item: None,
        intangible: None,
        ai: None,
        counter: None,
    }
}

fn monster(level: &mut Level, x: i16, y: i16, health: u32) -> Entity {
    level.spawn(LevelRecord {
        name: Some(Name::new("Bat", false)),
        position: Some(Position::new(x, y)),
        sprite: Some(Sprite::new("bat")),
        attackable: Some(Attackable::new(health, 3, false)),
        ..parts()
    })
}

fn wall(level: &mut Level, x: i16, y: i16) -> Entity {
    level.spawn(LevelRecord {
        name: Some(Name::new("Wall", false)),
        position: Some(Position::new(x, y)),
        ..parts()
    })
}

/// A level with `weapon` made, then the player at the origin facing up and
/// carrying it in the first slot.
fn armed(make: fn(Option<Position>, &mut Level) -> Entity) -> (Level, Entity, Entity) {
    let mut level = Level::new();
    let w = make(None, &mut level);
    let p = level.spawn(LevelRecord {
        name: Some(Name::new("Player", false)),
        position: Some(Position::new(0, 0)),
        sprite: Some(Sprite::new("player")),
        attackable: Some(Attackable::new(20, 0, false)),
        player: Some(Player::new(w)),
        ..parts()
    });
    level.game_state = GameState::PlayerTurn;
    (level, p, w)
}

fn rec(level: &Level, e: Entity) -> LevelRecord {
    level.records[level.index_of(e).unwrap()]
}

fn health(level: &Level, e: Entity) -> u32 {
    rec(level, e).attackable.unwrap().current_health
}

#[test]
fn the_weapons_are_made_with_their_prices() {
    let mut level = Level::new();
    let makers: [(fn(Option<Position>, &mut Level) -> Entity, &str, u32, ItemUse); 6] = [
        (create_jump_saber, "Jump Saber", 0, ItemUse::JumpSaber),
        (create_twister_staff, "Twister Staff", 10, ItemUse::TwisterStaff),
        (create_edge_of_ebony, "Edge of Ebony", 5, ItemUse::EdgeOfEbony),
        (create_blight_bow, "Blight Bow", 8, ItemUse::BlightBow),
        (create_improvised_spellbook, "Improvised Spellbook", 20, ItemUse::ImprovisedSpellbook),
        (create_netherbane, "Netherbane", 0, ItemUse::Netherbane),
    ];
    for (make, name, crystals, kind) in makers {
        let e = make(Some(Position::new(2, 3)), &mut level);
        let r = rec(&level, e);
        assert_eq!(r.name.unwrap().text, name);
        assert!(!r.name.unwrap().concealed);
        assert_eq!(r.position, Some(Position::new(2, 3)));
        let item = r.item.unwrap();
        assert_eq!((item.crystals_per_use, item.try_use), (crystals, kind));
    }
    let n = create_netherbane(None, &mut level);
    assert_eq!(rec(&level, n).counter.unwrap().0, 3);
    assert_eq!(rec(&level, n).sprite.unwrap().id, "netherbane");
}

#[test]
fn the_jump_saber_leaps_then_strikes() {
    let (mut level, p, w) = armed(create_jump_saber);
    let bat = monster(&mut level, 0, 2, 20);
    let r = use_item(ItemUse::JumpSaber, w, p, 0, &mut level, &mut pcg_from_seed(1));
    assert!(r.should_end_turn && !r.should_consume_item);
    assert_eq!(rec(&level, p).position, Some(Position::new(0, 1)));
    assert_eq!(health(&level, bat), 9);
}

#[test]
fn a_blocked_jump_saber_does_nothing() {
    let (mut level, p, w) = armed(create_jump_saber);
    let bat = monster(&mut level, 0, 2, 20);
    wall(&mut level, 0, 1);
    let before = format!("{:?}", level.records);
    let r = use_item(ItemUse::JumpSaber, w, p, 0, &mut level, &mut pcg_from_seed(1));
    assert!(!r.should_end_turn);
    assert_eq!(health(&level, bat), 20);
    assert_eq!(format!("{:?}", level.records), before);
    let beside = monster(&mut level, 0, -1, 20);
    let r = use_item(ItemUse::JumpSaber, w, p, 0, &mut level, &mut pcg_from_seed(1));
    assert!(!r.should_end_turn);
    assert_eq!(health(&level, beside), 20);
}

#[test]
fn the_twister_staff_pushes_a_survivor_away() {
    let (mut level, p, w) = armed(create_twister_staff);
    let bat = monster(&mut level, 0, 2, 20);
    let r = use_item(ItemUse::TwisterStaff, w, p, 0, &mut level, &mut pcg_from_seed(1));
    assert!(r.should_end_turn);
    assert_eq!(health(&level, bat), 12);
    assert_eq!(rec(&level, bat).position, Some(Position::new(0, 3)));
}

#[test]
fn a_survivor_that_cannot_be_pushed_takes_two_more() {
    let (mut level, p, w) = armed(create_twister_staff);
    let bat = monster(&mut level, 0, 1, 20);
    wall(&mut level, 0, 2);
    let r = use_item(ItemUse::TwisterStaff, w, p, 0, &mut level, &mut pcg_from_seed(1));
    assert!(r.should_end_turn);
    assert_eq!(health(&level, bat), 10);
    assert_eq!(rec(&level, bat).position, Some(Position::new(0, 1)));
}

#[test]
fn the_edge_of_ebony_may_hold_a_survivor_back() {
    for seed in 0..20 {
        let (mut level, p, w) = armed(create_edge_of_ebony);
        let bat = monster(&mut level, 0, 1, 20);
        let r = use_item(ItemUse::EdgeOfEbony, w, p, 0, &mut level, &mut pcg_from_seed(seed));
        assert!(r.should_end_turn);
        assert_eq!(health(&level, bat), 10);
        let held = rec(&level, bat).attackable.unwrap().cant_attack_turns;
        assert!(held == 0 || held == 2);
    }
}

#[test]
fn the_blight_bow_blights_a_survivor() {
    let (mut level, p, w) = armed(create_blight_bow);
    let bat = monster(&mut level, 0, 2, 20);
    let r = use_item(ItemUse::BlightBow, w, p, 0, &mut level, &mut pcg_from_seed(1));
    assert!(r.should_end_turn);
    let a = rec(&level, bat).attackable.unwrap();
    assert_eq!((a.current_health, a.blight_stacks), (16, 6));
}

#[test]
fn the_spellbook_deals_the_damage_drawn_within_three_tiles() {
    let (mut level, p, w) = armed(create_improvised_spellbook);
    let bat = monster(&mut level, 0, 3, 20);
    let r = use_item(ItemUse::ImprovisedSpellbook, w, p, 7, &mut level, &mut pcg_from_seed(1));
    assert!(r.should_end_turn);
    assert_eq!(health(&level, bat), 13);
    let far = monster(&mut level, 0, -4, 20);
    let i = level.index_of(p).unwrap();
    level.records[i].player.as_mut().unwrap().facing_direction = roguelike::data::Direction::Down;
    let r = use_item(ItemUse::ImprovisedSpellbook, w, p, 7, &mut level, &mut pcg_from_seed(1));
    assert!(!r.should_end_turn);
    assert_eq!(health(&level, far), 20);
}

#[test]
fn netherbane_grows_with_every_kill() {
    let (mut level, p, w) = armed(create_netherbane);
    let weak = monster(&mut level, 0, 1, 3);
    let r = use_item(ItemUse::Netherbane, w, p, 0, &mut level, &mut pcg_from_seed(1));
    assert!(r.should_end_turn);
    assert_eq!(level.index_of(weak), None);
    assert_eq!(rec(&level, w).counter.unwrap().0, 4);
    let tough = monster(&mut level, 0, 1, 10);
    use_item(ItemUse::Netherbane, w, p, 0, &mut level, &mut pcg_from_seed(1));
    assert_eq!(health(&level, tough), 6);
    assert_eq!(rec(&level, w).counter.unwrap().0, 4);
}

#[test]
fn a_weapon_with_no_one_to_strike_does_nothing() {
    let (mut level, p, w) = armed(create_blight_bow);
    let before = format!("{:?}", level.records);
    let r = use_item(ItemUse::BlightBow, w, p, 0, &mut level, &mut pcg_from_seed(1));
    assert!(!r.should_end_turn && !r.should_consume_item);
    assert_eq!(format!("{:?}", level.records), before);
}

#[test]
fn using_a_weapon_from_a_slot_spends_its_crystals() {
    let (mut level, p, _) = armed(create_twister_staff);
    let bat = monster(&mut level, 0, 2, 20);
    let mut system = PlayerControllerSystem::new();
    let mut generator = GenerateDungeonSystem::new();
    system.action = PlayerAction::UseItem(ItemSlot::One);
    assert_eq!(system.run(&mut generator, &mut level, &mut pcg_from_seed(1), 0), PlayerActed(true));
    assert_eq!(rec(&level, p).player.unwrap().crystals, 190);
    assert_eq!(health(&level, bat), 12);
}

#[test]
fn rare_monsters_always_carry_a_netherbane() {
    for seed in 0..10 {
        assert_eq!(create_random_layer1(Rarity::Rare, &mut pcg_from_seed(seed)), Some(Layer1Item::Netherbane));
    }
}

#[test]
fn common_and_uncommon_monsters_carry_their_own_kinds() {
    let mut rng = pcg_from_seed(3);
    let mut carried = 0;
    for _ in 0..200 {
        if let Some(k) = create_random_layer1(Rarity::Common, &mut rng) {
            carried += 1;
            assert!(matches!(
                k,
                Layer1Item::JumpSaber | Layer1Item::TwisterStaff | Layer1Item::EdgeOfEbony | Layer1Item::BlightBow
            ));
        }
        if let Some(k) = create_random_layer1(Rarity::Uncommon, &mut rng) {
            assert!(matches!(k, Layer1Item::ImprovisedSpellbook | Layer1Item::RandomScroll));
        }
    }
    assert!(carried > 0 && carried < 200);
}
