use roguelike::class1::{
    can_move, create_arcane_ooze, create_discordant_soul, create_siro_king_of_hell, create_ume_the_dungeon_heart,
    create_xilphene_the_moth_priestess, create_soul_spectre, create_danger_spider, create_jack_spectre, create_king_of_lanterns_flame, create_moth_worshipper,
    create_phase_bat, create_pungent_ooze, create_random_class1, create_skeleton_scout, create_volatile_husk,
    run_behaviour, try_move_towards, Behaviour,
};
use roguelike::data::{Attackable, Counter, Direction, Name, Player, Position, Rarity, Spawner};
use roguelike::enemy_controller::{enemy_controller_system, monster_order};
use roguelike::level::{Level, LevelRecord};
use roguelike::rng::{choose_weighted_index, pcg_from_seed};
use roguelike::spawn::tick_spawners;
use roguelike::world::Entity;

fn parts() -> LevelRecord {
    LevelRecord {
        entity: Entity { id: 0 },
        name: None,
        position: None,
        sprite: None,
        attackable: None,
        player: None,
        staircase: None,
        spawner: None,
        item: None,
        intangible: None,
        ai: None,
        counter: None,
    }
}

fn with_player(x: i16, y: i16) -> (Level, Entity) {
    let mut level = Level::new();
    let p = level.spawn(LevelRecord {
        name: Some(Name::new("Player", false)),
        position: Some(Position::new(x, y)),
        attackable: Some(Attackable::new(30, 0, false)),
        player: Some(Player::new(Entity { id: 999 })),
        ..parts()
    });
    (level, p)
}

fn rec(level: &Level, e: Entity) -> LevelRecord {
    level.records[level.index_of(e).unwrap()]
}

fn health(level: &Level, e: Entity) -> u32 {
    rec(level, e).attackable.unwrap().current_health
}

#[test]
fn monsters_are_made_with_their_stats() {
    let mut level = Level::new();
    let bat = create_phase_bat(Position::new(1, 1), &mut level);
    let spider = create_danger_spider(Position::new(2, 1), &mut level);
    let ooze = create_pungent_ooze(Position::new(3, 1), &mut level);
    let scout = create_skeleton_scout(Position::new(4, 1), &mut level);
    let husk = create_volatile_husk(Position::new(5, 1), &mut level);
    let jack = create_jack_spectre(Position::new(6, 1), &mut level);
    let flame = create_king_of_lanterns_flame(Position::new(7, 1), &mut level);
    let worshipper = create_moth_worshipper(Position::new(8, 1), &mut level);
    assert_eq!(rec(&level, bat).name.unwrap().text, "Phase Bat");
    assert_eq!(health(&level, bat), 6);
    assert_eq!(rec(&level, spider).ai, Some(Behaviour::DangerSpider));
    assert!(rec(&level, ooze).attackable.unwrap().is_oozing);
    assert_eq!(health(&level, scout), 9);
    assert_eq!(rec(&level, husk).attackable.unwrap().explode_on_death, (6, 2));
    assert_eq!(rec(&level, jack).counter, Some(Counter(0)));
    assert!(rec(&level, flame).intangible.is_some() && rec(&level, flame).attackable.is_none());
    assert_eq!(health(&level, worshipper), 12);
    assert_eq!(rec(&level, jack).sprite.unwrap().id, "jack_spectre");
}

#[test]
fn random_monsters_come_from_their_rarity() {
    let mut level = Level::new();
    let mut rng = pcg_from_seed(7);
    for k in 0..30 {
        let e = create_random_class1(Rarity::Uncommon, Position::new(k, 0), &mut level, &mut rng);
        let name = rec(&level, e).name.unwrap().text;
        assert!(name == "Skeleton Scout" || name == "Volatile Husk", "{}", name);
    }
    let e = create_random_class1(Rarity::Rare, Position::new(0, 5), &mut level, &mut rng);
    assert_eq!(rec(&level, e).name.unwrap().text, "Jack Spectre");
}

#[test]
fn weighted_choices_skip_zero_weights() {
    let mut rng = pcg_from_seed(3);
    for _ in 0..50 {
        let i = choose_weighted_index(&vec![0, 4, 0, 1], &mut rng);
        assert!(i == 1 || i == 3);
    }
}

#[test]
fn chasing_takes_a_step_towards_the_target() {
    let (mut level, p) = with_player(0, 0);
    let spider = create_danger_spider(Position::new(4, 0), &mut level);
    assert_eq!(try_move_towards(spider, Position::new(0, 0), &mut level), Ok(()));
    assert_eq!(rec(&level, spider).position, Some(Position::new(3, 0)));
    assert!(can_move(p, Direction::Up, &level));
    let mut rng = pcg_from_seed(1);
    run_behaviour(Behaviour::DangerSpider, spider, p, &mut level, &mut rng);
    run_behaviour(Behaviour::DangerSpider, spider, p, &mut level, &mut rng);
    assert_eq!(rec(&level, spider).position, Some(Position::new(1, 0)));
    assert_eq!(health(&level, p), 30);
    run_behaviour(Behaviour::DangerSpider, spider, p, &mut level, &mut rng);
    assert_eq!(health(&level, p), 25);
}

#[test]
fn biters_hit_for_their_damage() {
    let (mut level, p) = with_player(0, 0);
    let mut rng = pcg_from_seed(1);
    let ooze = create_pungent_ooze(Position::new(0, 1), &mut level);
    let husk = create_volatile_husk(Position::new(1, 0), &mut level);
    run_behaviour(Behaviour::PungentOoze, ooze, p, &mut level, &mut rng);
    assert_eq!(health(&level, p), 27);
    run_behaviour(Behaviour::PungentOoze, ooze, p, &mut level, &mut rng);
    // The second melee hit adds the ooze stack from the first.
    assert_eq!(health(&level, p), 23);
    run_behaviour(Behaviour::VolatileHusk, husk, p, &mut level, &mut rng);
    assert_eq!(health(&level, p), 21);
}

#[test]
fn a_phase_bat_bites_for_three_and_sometimes_two_more() {
    let (mut level, p) = with_player(0, 0);
    let mut rng = pcg_from_seed(11);
    let bat = create_phase_bat(Position::new(0, -1), &mut level);
    for _ in 0..5 {
        let before = health(&level, p);
        run_behaviour(Behaviour::PhaseBat, bat, p, &mut level, &mut rng);
        let lost = before - health(&level, p);
        assert!(lost == 3 || lost == 5, "lost {}", lost);
    }
}

#[test]
fn a_scout_attacks_from_two_tiles() {
    let (mut level, p) = with_player(0, 0);
    let mut rng = pcg_from_seed(5);
    let scout = create_skeleton_scout(Position::new(0, 2), &mut level);
    run_behaviour(Behaviour::SkeletonScout, scout, p, &mut level, &mut rng);
    assert_eq!(health(&level, p), 25);
    assert_eq!(rec(&level, scout).position, Some(Position::new(0, 2)));
}

#[test]
fn a_jack_spectre_strikes_once_then_backs_away() {
    let (mut level, p) = with_player(0, 0);
    let mut rng = pcg_from_seed(2);
    let jack = create_jack_spectre(Position::new(1, 0), &mut level);
    run_behaviour(Behaviour::JackSpectre, jack, p, &mut level, &mut rng);
    assert_eq!(health(&level, p), 24);
    let at = rec(&level, jack).position.unwrap();
    assert!(at.x.abs() + at.y.abs() > 1, "{:?}", at);
    assert_eq!(rec(&level, jack).counter, Some(Counter(0)));
}

#[test]
fn a_jack_spectre_out_of_reach_closes_in_twice() {
    let (mut level, p) = with_player(0, 0);
    let mut rng = pcg_from_seed(2);
    let jack = create_jack_spectre(Position::new(5, 0), &mut level);
    run_behaviour(Behaviour::JackSpectre, jack, p, &mut level, &mut rng);
    assert_eq!(rec(&level, jack).position, Some(Position::new(3, 0)));
    assert_eq!(health(&level, p), 30);
}

#[test]
fn monsters_act_nearest_first() {
    let (mut level, p) = with_player(0, 0);
    let far = create_danger_spider(Position::new(9, 0), &mut level);
    let near = create_danger_spider(Position::new(0, 3), &mut level);
    let order = monster_order(&level, Position::new(0, 0));
    assert_eq!(order.iter().map(|k| k.2).collect::<Vec<_>>(), vec![near, far]);
    assert_eq!(order[0].0, 3);
    let mut rng = pcg_from_seed(4);
    enemy_controller_system(&mut level, &mut rng);
    assert_eq!(rec(&level, near).position, Some(Position::new(0, 2)));
    assert_eq!(rec(&level, far).position, Some(Position::new(8, 0)));
    assert_eq!(health(&level, p), 30);
}

#[test]
fn spawners_fire_on_free_tiles_only() {
    let (mut level, _) = with_player(0, 0);
    let mut rng = pcg_from_seed(9);
    let free = level.spawn(LevelRecord {
        spawner: Some(Spawner::new()),
        position: Some(Position::new(5, 5)),
        intangible: Some(roguelike::data::Intangible {}),
        ..parts()
    });
    let blocked = level.spawn(LevelRecord { spawner: Some(Spawner::new()), position: Some(Position::new(6, 6)), ..parts() });
    let n = level.records.len();
    tick_spawners(&mut level, &mut rng);
    assert_eq!(level.records.len(), n + 1);
    assert_eq!(level.records[n].position, Some(Position::new(5, 5)));
    assert_eq!(rec(&level, free).spawner.unwrap().turns_since_last_spawn, 0);
    assert_eq!(rec(&level, blocked).spawner.unwrap().turns_since_last_spawn, 0);
    tick_spawners(&mut level, &mut rng);
    assert_eq!(level.records.len(), n + 1);
    assert_eq!(rec(&level, free).spawner.unwrap().turns_since_last_spawn, 1);
}

#[test]
fn deeper_monsters_and_bosses_are_made_with_their_stats() {
    let mut level = Level::new();
    let ooze = create_arcane_ooze(Position::new(1, 1), &mut level);
    let soul = create_discordant_soul(Position::new(2, 1), &mut level);
    let siro = create_siro_king_of_hell(Position::new(3, 1), &mut level);
    let xilphene = create_xilphene_the_moth_priestess(Position::new(4, 1), &mut level);
    let ume = create_ume_the_dungeon_heart(Position::new(5, 1), &mut level);
    let a = rec(&level, ooze).attackable.unwrap();
    assert_eq!((a.max_health, a.crystals_dropped_on_death, a.is_oozing, a.is_magic_immune), (18, 50, true, true));
    assert_eq!(rec(&level, ooze).ai, Some(Behaviour::ArcaneOoze));
    let s = rec(&level, soul).attackable.unwrap();
    assert_eq!((s.max_health, s.crystals_dropped_on_death), (6, 5));
    assert_eq!(rec(&level, soul).ai, Some(Behaviour::DiscordantSoul));
    for (boss, hp) in [(siro, 50), (xilphene, 40), (ume, 50)] {
        let b = rec(&level, boss).attackable.unwrap();
        assert_eq!((b.max_health, b.crystals_dropped_on_death, b.is_boss), (hp, 200, true));
        assert!(rec(&level, boss).sprite.unwrap().double_sized);
        assert_eq!(rec(&level, boss).ai, None);
    }
    assert_eq!(rec(&level, ume).name.unwrap().text, "Ume, The Dungeon Heart");
}

#[test]
fn a_discordant_soul_bites_for_three() {
    let (mut level, p) = with_player(0, 0);
    let mut rng = pcg_from_seed(1);
    let soul = create_discordant_soul(Position::new(0, 1), &mut level);
    run_behaviour(Behaviour::DiscordantSoul, soul, p, &mut level, &mut rng);
    assert_eq!(health(&level, p), 27);
}

#[test]
fn a_soul_spectre_greets_then_turns_angry_when_hurt() {
    let (mut level, p) = with_player(0, 0);
    let mut rng = pcg_from_seed(3);
    let spectre = create_soul_spectre(Position::new(0, 3), &mut level);
    run_behaviour(Behaviour::SoulSpectre, spectre, p, &mut level, &mut rng);
    assert_eq!(rec(&level, spectre).counter, Some(Counter(1)));
    assert_eq!(health(&level, p), 30);
    assert_eq!(rec(&level, spectre).position, Some(Position::new(0, 3)));
    let texts = level.message_log.clone().recent_messages(0).iter().map(|m| m.text.clone()).collect::<Vec<_>>();
    assert_eq!(texts, vec!["Hello there. May I have your soul?".to_string()]);
    let idx = level.index_of(spectre).unwrap();
    let mut r = level.records[idx];
    let mut a = r.attackable.unwrap();
    a.current_health = 10;
    r.attackable = Some(a);
    level.set_record(idx, r);
    run_behaviour(Behaviour::SoulSpectre, spectre, p, &mut level, &mut rng);
    assert_eq!(rec(&level, spectre).counter, Some(Counter(2)));
    let log = level.message_log.clone().recent_messages(0).iter().map(|m| m.text.clone()).collect::<Vec<_>>();
    assert_eq!(log.len(), 2);
    assert!(log[0].starts_with("Wow, that was rude."));
}
