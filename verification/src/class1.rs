//! The first class of monsters of the item-and-crystal rules: how each is
//! made, how a random one is picked by rarity, and how each behaves on its
//! turn.

use crate::attack::{attack_done, attack_reaches, attackable_of, can_attack, name_text_of, position_of, try_attack};
use crate::components::{abs, PositionComponent};
use crate::data::{
    Attackable, Counter, Direction, Intangible, MessageColor, MessageDisplayLength, Name, Position, Rarity, Sprite,
};
use crate::level::{
    bare, blocks, held, index_of_spec, lemma_index_unique, near, player_index, record_of, step_from, tile_free,
    try_move, Level, LevelRecord,
};
use crate::movement::{
    is_shortest_walk, lemma_shortest_walk_first_step, lemma_shortest_walks_same_length, shortest_walk, Goal,
};
use crate::rng::{choose_item, gen_ratio};
use crate::world::Entity;
use rand_pcg::Pcg64;
use vstd::prelude::*;

verus! {

/// How a monster of the first class behaves on its turn.
#[derive(Debug, Hash, PartialEq, Eq, Copy, Clone, Structural)]
pub enum Behaviour {
    PhaseBat,
    DangerSpider,
    PungentOoze,
    SkeletonScout,
    VolatileHusk,
    JackSpectre,
    ArcaneOoze,
    DiscordantSoul,
    SoulSpectre,
}

/// The record of a monster made on `p`.
pub open spec fn monster_record(
    e: Entity,
    name: &'static str,
    p: Position,
    sprite: &'static str,
    attackable: Option<Attackable>,
    ai: Option<Behaviour>,
    counter: Option<Counter>,
    intangible: bool,
) -> LevelRecord {
    LevelRecord {
        name: Some(Name { text: name, concealed: false }),
        position: Some(p),
        sprite: Some(Sprite { id: sprite, double_sized: false, in_foreground: true }),
        attackable,
        ai,
        counter,
        intangible: if intangible {
            Some(Intangible {  })
        } else {
            None
        },
        ..bare(e)
    }
}

/// `l1` is `l0` with `r` (under a new entity) added.
pub open spec fn added(l0: Level, l1: Level, r: LevelRecord) -> bool {
    &&& l1 == Level { records: l1.records, next_id: (l0.next_id + 1) as u64, ..l0 }
    &&& l1.records@ == l0.records@.push(LevelRecord { entity: Entity { id: l0.next_id }, ..r })
}

fn add_monster(
    level: &mut Level,
    name: &'static str,
    p: Position,
    sprite: &'static str,
    attackable: Option<Attackable>,
    ai: Option<Behaviour>,
    counter: Option<Counter>,
    intangible: bool,
) -> (e: Entity)
    requires
        old(level).wf(),
        old(level).next_id < u64::MAX,
        near(p),
    ensures
        final(level).wf(),
        e.id == old(level).next_id,
        added(*old(level), *final(level), monster_record(e, name, p, sprite, attackable, ai, counter, intangible)),
{
    level.spawn(
        LevelRecord {
            entity: Entity { id: 0 },
            name: Some(Name::new(name, false)),
            position: Some(p),
            sprite: Some(Sprite::new(sprite)),
            attackable,
            player: None,
            staircase: None,
            spawner: None,
            item: None,
            intangible: if intangible {
                Some(Intangible {  })
            } else {
                None
            },
            ai,
            counter,
        },
    )
}

/// Health of a plain monster: full, no effects, no crystals.
pub open spec fn plain(max_health: u32) -> Attackable {
    Attackable {
        current_health: max_health,
        max_health,
        is_boss: false,
        crystals_dropped_on_death: 0,
        is_oozing: false,
        explode_on_death: (0, 0),
        lower_spawn_times: (0, 0),
        is_magic_immune: false,
        oozed_stacks: 0,
        cant_attack_turns: 0,
        cant_move_turns: 0,
        blight_stacks: 0,
    }
}

/// A Phase Bat (six health) on `p`.
pub fn create_phase_bat(p: Position, level: &mut Level) -> (e: Entity)
    requires
        old(level).wf(),
        old(level).next_id < u64::MAX,
        near(p),
    ensures
        final(level).wf(),
        e.id == old(level).next_id,
        added(
            *old(level),
            *final(level),
            monster_record(e, "Phase Bat", p, "phase_bat", Some(plain(6)), Some(Behaviour::PhaseBat), None, false),
        ),
{
    add_monster(level, "Phase Bat", p, "phase_bat", Some(Attackable::new(6, 0, false)), Some(Behaviour::PhaseBat), None, false)
}

/// A Danger! Spider (seven health) on `p`.
pub fn create_danger_spider(p: Position, level: &mut Level) -> (e: Entity)
    requires
        old(level).wf(),
        old(level).next_id < u64::MAX,
        near(p),
    ensures
        final(level).wf(),
        e.id == old(level).next_id,
        added(
            *old(level),
            *final(level),
            monster_record(
                e,
                "Danger! Spider",
                p,
                "danger_spider",
                Some(plain(7)),
                Some(Behaviour::DangerSpider),
                None,
                false,
            ),
        ),
{
    add_monster(
        level,
        "Danger! Spider",
        p,
        "danger_spider",
        Some(Attackable::new(7, 0, false)),
        Some(Behaviour::DangerSpider),
        None,
        false,
    )
}

/// A Pungent Ooze (seven health, oozing) on `p`.
pub fn create_pungent_ooze(p: Position, level: &mut Level) -> (e: Entity)
    requires
        old(level).wf(),
        old(level).next_id < u64::MAX,
        near(p),
    ensures
        final(level).wf(),
        e.id == old(level).next_id,
        added(
            *old(level),
            *final(level),
            monster_record(
                e,
                "Pungent Ooze",
                p,
                "pungent_ooze",
                Some(Attackable { is_oozing: true, ..plain(7) }),
                Some(Behaviour::PungentOoze),
                None,
                false,
            ),
        ),
{
    let a = Attackable { is_oozing: true, ..Attackable::new(7, 0, false) };
    add_monster(level, "Pungent Ooze", p, "pungent_ooze", Some(a), Some(Behaviour::PungentOoze), None, false)
}

/// A Skeleton Scout (nine health) on `p`.
pub fn create_skeleton_scout(p: Position, level: &mut Level) -> (e: Entity)
    requires
        old(level).wf(),
        old(level).next_id < u64::MAX,
        near(p),
    ensures
        final(level).wf(),
        e.id == old(level).next_id,
        added(
            *old(level),
            *final(level),
            monster_record(
                e,
                "Skeleton Scout",
                p,
                "skeleton_scout",
                Some(plain(9)),
                Some(Behaviour::SkeletonScout),
                None,
                false,
            ),
        ),
{
    add_monster(
        level,
        "Skeleton Scout",
        p,
        "skeleton_scout",
        Some(Attackable::new(9, 0, false)),
        Some(Behaviour::SkeletonScout),
        None,
        false,
    )
}

/// A Volatile Husk (six health) on `p`; it explodes on death, dealing six
/// damage within two tiles.
pub fn create_volatile_husk(p: Position, level: &mut Level) -> (e: Entity)
    requires
        old(level).wf(),
        old(level).next_id < u64::MAX,
        near(p),
    ensures
        final(level).wf(),
        e.id == old(level).next_id,
        added(
            *old(level),
            *final(level),
            monster_record(
                e,
                "Volatile Husk",
                p,
                "volatile_husk",
                Some(Attackable { explode_on_death: (6, 2), ..plain(6) }),
                Some(Behaviour::VolatileHusk),
                None,
                false,
            ),
        ),
{
    let a = Attackable { explode_on_death: (6, 2), ..Attackable::new(6, 0, false) };
    add_monster(level, "Volatile Husk", p, "volatile_husk", Some(a), Some(Behaviour::VolatileHusk), None, false)
}

/// A Jack Spectre (seven health, a counter at zero) on `p`.
pub fn create_jack_spectre(p: Position, level: &mut Level) -> (e: Entity)
    requires
        old(level).wf(),
        old(level).next_id < u64::MAX,
        near(p),
    ensures
        final(level).wf(),
        e.id == old(level).next_id,
        added(
            *old(level),
            *final(level),
            monster_record(
                e,
                "Jack Spectre",
                p,
                "jack_spectre",
                Some(plain(7)),
                Some(Behaviour::JackSpectre),
                Some(Counter(0)),
                false,
            ),
        ),
{
    add_monster(
        level,
        "Jack Spectre",
        p,
        "jack_spectre",
        Some(Attackable::new(7, 0, false)),
        Some(Behaviour::JackSpectre),
        Some(Counter(0)),
        false,
    )
}

/// An Arcane Ooze (eighteen health, fifty crystals, oozing and immune to
/// magic) on `p`.
pub fn create_arcane_ooze(p: Position, level: &mut Level) -> (e: Entity)
    requires
        old(level).wf(),
        old(level).next_id < u64::MAX,
        near(p),
    ensures
        final(level).wf(),
        e.id == old(level).next_id,
        added(
            *old(level),
            *final(level),
            monster_record(
                e,
                "Arcane Ooze",
                p,
                "arcane_ooze",
                Some(
                    Attackable {
                        crystals_dropped_on_death: 50,
                        is_oozing: true,
                        is_magic_immune: true,
                        ..plain(18)
                    },
                ),
                Some(Behaviour::ArcaneOoze),
                None,
                false,
            ),
        ),
{
    let a = Attackable { is_oozing: true, is_magic_immune: true, ..Attackable::new(18, 50, false) };
    add_monster(level, "Arcane Ooze", p, "arcane_ooze", Some(a), Some(Behaviour::ArcaneOoze), None, false)
}

/// A Discordant Soul (six health, five crystals) on `p`.
pub fn create_discordant_soul(p: Position, level: &mut Level) -> (e: Entity)
    requires
        old(level).wf(),
        old(level).next_id < u64::MAX,
        near(p),
    ensures
        final(level).wf(),
        e.id == old(level).next_id,
        added(
            *old(level),
            *final(level),
            monster_record(
                e,
                "Discordant Soul",
                p,
                "discordant_soul",
                Some(Attackable { crystals_dropped_on_death: 5, ..plain(6) }),
                Some(Behaviour::DiscordantSoul),
                None,
                false,
            ),
        ),
{
    add_monster(
        level,
        "Discordant Soul",
        p,
        "discordant_soul",
        Some(Attackable::new(6, 5, false)),
        Some(Behaviour::DiscordantSoul),
        None,
        false,
    )
}

/// The record of a boss made on `p`: double-sized, with `max_health`
/// health, two hundred crystals, and no behaviour.
pub open spec fn boss_record(e: Entity, name: &'static str, p: Position, sprite: &'static str, max_health: u32) -> LevelRecord {
    LevelRecord {
        name: Some(Name { text: name, concealed: false }),
        position: Some(p),
        sprite: Some(Sprite { id: sprite, double_sized: true, in_foreground: true }),
        attackable: Some(Attackable { is_boss: true, crystals_dropped_on_death: 200, ..plain(max_health) }),
        ..bare(e)
    }
}

fn add_boss(level: &mut Level, name: &'static str, p: Position, sprite: &'static str, max_health: u32) -> (e: Entity)
    requires
        old(level).wf(),
        old(level).next_id < u64::MAX,
        near(p),
    ensures
        final(level).wf(),
        e.id == old(level).next_id,
        added(*old(level), *final(level), boss_record(e, name, p, sprite, max_health)),
{
    level.spawn(
        LevelRecord {
            entity: Entity { id: 0 },
            name: Some(Name::new(name, false)),
            position: Some(p),
            sprite: Some(Sprite { id: sprite, double_sized: true, in_foreground: true }),
            attackable: Some(Attackable::new(max_health, 200, true)),
            player: None,
            staircase: None,
            spawner: None,
            item: None,
            intangible: None,
            ai: None,
            counter: None,
        },
    )
}

/// Siro, King of Hell (a boss with fifty health) on `p`; it has no
/// behaviour yet.
pub fn create_siro_king_of_hell(p: Position, level: &mut Level) -> (e: Entity)
    requires
        old(level).wf(),
        old(level).next_id < u64::MAX,
        near(p),
    ensures
        final(level).wf(),
        e.id == old(level).next_id,
        added(*old(level), *final(level), boss_record(e, "Siro, King of Hell", p, "placeholder", 50)),
{
    add_boss(level, "Siro, King of Hell", p, "placeholder", 50)
}

/// Xilphene, The Moth Priestess (a boss with forty health) on `p`; it has
/// no behaviour yet.
pub fn create_xilphene_the_moth_priestess(p: Position, level: &mut Level) -> (e: Entity)
    requires
        old(level).wf(),
        old(level).next_id < u64::MAX,
        near(p),
    ensures
        final(level).wf(),
        e.id == old(level).next_id,
        added(*old(level), *final(level), boss_record(e, "Xilphene, The Moth Priestess", p, "placeholder", 40)),
{
    add_boss(level, "Xilphene, The Moth Priestess", p, "placeholder", 40)
}

/// Ume, The Dungeon Heart (a boss with fifty health) on `p`; it has no
/// behaviour yet.
pub fn create_ume_the_dungeon_heart(p: Position, level: &mut Level) -> (e: Entity)
    requires
        old(level).wf(),
        old(level).next_id < u64::MAX,
        near(p),
    ensures
        final(level).wf(),
        e.id == old(level).next_id,
        added(*old(level), *final(level), boss_record(e, "Ume, The Dungeon Heart", p, "ume_the_dungeon_heart", 50)),
{
    add_boss(level, "Ume, The Dungeon Heart", p, "ume_the_dungeon_heart", 50)
}

/// The King of the Lanterns (47 health) on `p`; it has no behaviour yet.
pub fn create_king_of_lanterns(p: Position, level: &mut Level) -> (e: Entity)
    requires
        old(level).wf(),
        old(level).next_id < u64::MAX,
        near(p),
    ensures
        final(level).wf(),
        e.id == old(level).next_id,
        added(
            *old(level),
            *final(level),
            monster_record(e, "King of the Lanterns", p, "placeholder", Some(plain(47)), None, None, false),
        ),
{
    add_monster(level, "King of the Lanterns", p, "placeholder", Some(Attackable::new(47, 0, false)), None, None, false)
}

/// An illusion of the King of the Lanterns (one health) on `p`.
pub fn create_king_of_lanterns_illusion(p: Position, level: &mut Level) -> (e: Entity)
    requires
        old(level).wf(),
        old(level).next_id < u64::MAX,
        near(p),
    ensures
        final(level).wf(),
        e.id == old(level).next_id,
        added(
            *old(level),
            *final(level),
            monster_record(e, "King of the Lanterns", p, "placeholder", Some(plain(1)), None, None, false),
        ),
{
    add_monster(level, "King of the Lanterns", p, "placeholder", Some(Attackable::new(1, 0, false)), None, None, false)
}

/// A Pillar of Flame on `p`: intangible, without health.
pub fn create_king_of_lanterns_flame(p: Position, level: &mut Level) -> (e: Entity)
    requires
        old(level).wf(),
        old(level).next_id < u64::MAX,
        near(p),
    ensures
        final(level).wf(),
        e.id == old(level).next_id,
        added(*old(level), *final(level), monster_record(e, "Pillar of Flame", p, "orange", None, None, None, true)),
{
    add_monster(level, "Pillar of Flame", p, "orange", None, None, None, true)
}

/// The Moth Priestess (47 health) on `p`; it has no behaviour yet.
pub fn create_moth_priestess(p: Position, level: &mut Level) -> (e: Entity)
    requires
        old(level).wf(),
        old(level).next_id < u64::MAX,
        near(p),
    ensures
        final(level).wf(),
        e.id == old(level).next_id,
        added(
            *old(level),
            *final(level),
            monster_record(e, "The Moth Priestess", p, "placeholder", Some(plain(47)), None, None, false),
        ),
{
    add_monster(level, "The Moth Priestess", p, "placeholder", Some(Attackable::new(47, 0, false)), None, None, false)
}

/// A Moth Worshipper (twelve health) on `p`.
pub fn create_moth_worshipper(p: Position, level: &mut Level) -> (e: Entity)
    requires
        old(level).wf(),
        old(level).next_id < u64::MAX,
        near(p),
    ensures
        final(level).wf(),
        e.id == old(level).next_id,
        added(
            *old(level),
            *final(level),
            monster_record(e, "Moth Worshipper", p, "placeholder", Some(plain(12)), None, None, false),
        ),
{
    add_monster(level, "Moth Worshipper", p, "placeholder", Some(Attackable::new(12, 0, false)), None, None, false)
}

/// The monsters of each rarity: common ones are bats, spiders and oozes;
/// uncommon ones scouts and husks; rare ones spectres; epic ones the King
/// of the Lanterns and the Moth Priestess.
pub open spec fn class1_choices(r: Rarity) -> Seq<&'static str> {
    match r {
        Rarity::Common => seq!["Phase Bat", "Danger! Spider", "Pungent Ooze"],
        Rarity::Uncommon => seq!["Skeleton Scout", "Volatile Husk"],
        Rarity::Rare => seq!["Jack Spectre"],
        Rarity::Epic => seq!["King of the Lanterns", "The Moth Priestess"],
    }
}

/// Makes a random monster of the rarity on `p` (see `class1_choices`);
/// which one is left to chance.
pub fn create_random_class1(rarity: Rarity, p: Position, level: &mut Level, rng: &mut Pcg64) -> (e: Entity)
    requires
        old(level).wf(),
        old(level).next_id < u64::MAX,
        near(p),
    ensures
        final(level).wf(),
        e.id == old(level).next_id,
        *final(level) == (Level { records: final(level).records, next_id: final(level).next_id, ..*old(level) }),
        final(level).next_id == old(level).next_id + 1,
        final(level).records@.len() == old(level).records@.len() + 1,
        final(level).records@.drop_last() == old(level).records@,
        final(level).records@.last().entity == e,
        final(level).records@.last().position == Some(p),
        class1_choices(rarity).contains(final(level).records@.last().name.unwrap().text),
{
    let choice: usize = match rarity {
        Rarity::Common => crate::rng::gen_range_usize(rng, 0, 3),
        Rarity::Uncommon => crate::rng::gen_range_usize(rng, 0, 2),
        Rarity::Rare => 0,
        Rarity::Epic => crate::rng::gen_range_usize(rng, 0, 2),
    };
    let ghost l0 = *level;
    let e = match rarity {
        Rarity::Common => if choice == 0 {
            create_phase_bat(p, level)
        } else if choice == 1 {
            create_danger_spider(p, level)
        } else {
            create_pungent_ooze(p, level)
        },
        Rarity::Uncommon => if choice == 0 {
            create_skeleton_scout(p, level)
        } else {
            create_volatile_husk(p, level)
        },
        Rarity::Rare => create_jack_spectre(p, level),
        Rarity::Epic => if choice == 0 {
            create_king_of_lanterns(p, level)
        } else {
            create_moth_priestess(p, level)
        },
    };
    assert(level.records@.drop_last() =~= l0.records@);
    proof {
        let t = level.records@.last().name.unwrap().text;
        match rarity {
            Rarity::Common => {
                if choice == 0 {
                    assert(class1_choices(rarity)[0] == t);
                } else if choice == 1 {
                    assert(class1_choices(rarity)[1] == t);
                } else {
                    assert(class1_choices(rarity)[2] == t);
                }
            },
            Rarity::Uncommon => {
                if choice == 0 {
                    assert(class1_choices(rarity)[0] == t);
                } else {
                    assert(class1_choices(rarity)[1] == t);
                }
            },
            Rarity::Rare => {
                assert(class1_choices(rarity)[0] == t);
            },
            Rarity::Epic => {
                if choice == 0 {
                    assert(class1_choices(rarity)[0] == t);
                } else {
                    assert(class1_choices(rarity)[1] == t);
                }
            },
        }
    }
    e
}

/// The layout position of a tile.
pub open spec fn pc(p: Position) -> PositionComponent {
    PositionComponent { x: p.x as i32, y: p.y as i32 }
}

/// The tiles where something stands in the way, in table order.
pub open spec fn level_obstacles(rs: Seq<LevelRecord>) -> Seq<PositionComponent> {
    rs.filter(|r: LevelRecord| r.intangible is None && r.position is Some).map_values(
        |r: LevelRecord| pc(r.position.unwrap()),
    )
}

pub(crate) fn obstacle_tiles(level: &Level) -> (r: Vec<PositionComponent>)
    ensures
        r@ == level_obstacles(level.records@),
{
    let ghost rs = level.records@;
    let mut r: Vec<PositionComponent> = Vec::new();
    let mut i: usize = 0;
    while i < level.records.len()
        invariant
            rs == level.records@,
            i <= rs.len(),
            r@ == level_obstacles(rs.subrange(0, i as int)),
        decreases rs.len() - i,
    {
        let rec = level.records[i];
        proof {
            assert(rs.subrange(0, i + 1).drop_last() =~= rs.subrange(0, i as int));
            reveal_with_fuel(Seq::filter, 1);
        }
        let blocking = rec.intangible.is_none() && rec.position.is_some();
        if blocking {
            let q = rec.position.unwrap();
            r.push(PositionComponent { x: q.x as i32, y: q.y as i32 });
        }
        proof {
            let f = |q: LevelRecord| q.intangible is None && q.position is Some;
            let f0 = rs.subrange(0, i as int).filter(f);
            let f1 = rs.subrange(0, i + 1).filter(f);
            if blocking {
                assert(f1 == f0.push(rec));
                assert(level_obstacles(rs.subrange(0, i + 1)) =~= level_obstacles(rs.subrange(0, i as int)).push(
                    pc(rec.position.unwrap()),
                ));
            } else {
                assert(f1 == f0);
            }
        }
        i = i + 1;
    }
    assert(rs.subrange(0, i as int) =~= rs);
    r
}

/// `l1` is `l0` after `e` took the first step of a shortest walk (along
/// the axes, around whatever stands in the way) from its tile to a tile
/// next to `goal`.
pub open spec fn stepped_toward(l0: Level, l1: Level, e: Entity, goal: Position) -> bool {
    let i = index_of_spec(l0.records@, e).unwrap();
    let start = l0.records@[i].position.unwrap();
    exists|path: Seq<PositionComponent>, d: Direction|
        #![trigger is_shortest_walk(false, pc(start), Goal::NextTo(pc(goal)), level_obstacles(l0.records@), path), step_from(start, d)]
        is_shortest_walk(false, pc(start), Goal::NextTo(pc(goal)), level_obstacles(l0.records@), path)
            && path.len() > 0 && pc(step_from(start, d)) == path[0] && l1 == (Level {
            records: l1.records,
            ..l0
        }) && l1.records@ == l0.records@.update(i, LevelRecord { position: Some(step_from(start, d)), ..l0.records@[i] })
}

/// `l1` is `l0` after `e` took the first step of a shortest walk to a tile
/// next to `goal` (see `stepped_toward`), or `l1` is `l0` when it did not
/// move.
pub open spec fn chased(l0: Level, l1: Level, e: Entity, goal: Position) -> bool {
    l1 == l0 || stepped_toward(l0, l1, e, goal)
}

/// Both coordinates are one tile inside the `near` range, so a step from
/// `p` stays near the origin.
pub open spec fn inner(p: Position) -> bool {
    -32766 <= p.x <= 32765 && -32766 <= p.y <= 32765
}

/// A step towards `goal` is owed to `e`: it is not held, its tile is
/// `inner`, and some shortest walk from there to a tile next to `goal` takes
/// at least one step.
pub open spec fn chase_owed(l0: Level, e: Entity, goal: Position) -> bool {
    let rec = record_of(l0.records@, e).unwrap();
    let start = rec.position.unwrap();
    &&& !held(rec)
    &&& inner(start)
    &&& exists|path: Seq<PositionComponent>|
        #[trigger] is_shortest_walk(false, pc(start), Goal::NextTo(pc(goal)), level_obstacles(l0.records@), path)
            && path.len() > 0
}

/// A tile where a record stands in the way is one of the level's obstacles.
proof fn lemma_blocked_is_obstacle(rs: Seq<LevelRecord>, j: int, p: Position)
    requires
        0 <= j < rs.len(),
        blocks(rs[j], p),
    ensures
        level_obstacles(rs).contains(pc(p)),
{
    let f = |r: LevelRecord| r.intangible is None && r.position is Some;
    rs.lemma_filter_contains(f, j);
    assert(rs.filter(f).contains(rs[j]));
    let k = choose|k: int| 0 <= k < rs.filter(f).len() && rs.filter(f)[k] == rs[j];
    assert(level_obstacles(rs)[k] == pc(p));
}

/// Moves `e` one step along a shortest walk towards a tile next to `goal`
/// (see `stepped_toward`); refused, changing nothing, when there is no
/// such step or `try_move` refuses it. The step is owed when `chase_owed`
/// holds.
pub fn try_move_towards(e: Entity, goal: Position, level: &mut Level) -> (r: Result<(), ()>)
    requires
        old(level).wf(),
        position_of(*old(level), e) is Some,
        near(goal),
    ensures
        final(level).wf(),
        chased(*old(level), *final(level), e, goal),
        r is Ok ==> stepped_toward(*old(level), *final(level), e, goal) && !held(
            record_of(old(level).records@, e).unwrap(),
        ),
        r is Err ==> *final(level) == *old(level),
        chase_owed(*old(level), e, goal) ==> r is Ok,
{
    let i = level.index_of(e).unwrap();
    proof {
        lemma_index_unique(level.records@, level.next_id, e, i as int);
    }
    let start = level.records[i].position.unwrap();
    assert(near(level.records@[i as int].position.unwrap()));
    let obstacles = obstacle_tiles(level);
    let s = PositionComponent { x: start.x as i32, y: start.y as i32 };
    let g = PositionComponent { x: goal.x as i32, y: goal.y as i32 };
    let ghost goal_g = Goal::NextTo(g);
    match shortest_walk(s, Goal::NextTo(g), &obstacles, false) {
        Some(path) => {
            if path.len() == 0 {
                proof {
                    assert forall|w: Seq<PositionComponent>|
                        #[trigger] is_shortest_walk(false, s, goal_g, obstacles@, w) implies w.len() == 0 by {
                        lemma_shortest_walks_same_length(false, s, goal_g, obstacles@, path@, w);
                    }
                }
                return Err(());
            }
            let first = path[0];
            proof {
                lemma_shortest_walk_first_step(false, s, goal_g, obstacles@, path@);
            }
            let dx = first.x as i64 - s.x as i64;
            let dy = first.y as i64 - s.y as i64;
            let d = if dx == 0 && dy == 1 {
                Direction::Up
            } else if dx == 0 && dy == -1 {
                Direction::Down
            } else if dx == -1 && dy == 0 {
                Direction::Left
            } else if dx == 1 && dy == 0 {
                Direction::Right
            } else {
                return Err(());
            };
            assert(pc(step_from(start, d)) == path@[0]);
            let ghost l0 = *level;
            proof {
                let target = step_from(start, d);
                if !tile_free(l0.records@, target) {
                    let j = choose|j: int| 0 <= j < l0.records@.len() && blocks(#[trigger] l0.records@[j], target);
                    lemma_blocked_is_obstacle(l0.records@, j, target);
                }
            }
            let moved = try_move(e, d, level);
            proof {
                if moved is Ok {
                    assert(is_shortest_walk(false, pc(start), Goal::NextTo(pc(goal)), level_obstacles(l0.records@), path@));
                }
            }
            moved
        },
        None => Err(()),
    }
}

/// `l1` is `l0` after `e` attacked `target` with `damage` when in reach
/// (one tile along an axis), or chased it otherwise.
pub open spec fn bit_or_chased(l0: Level, l1: Level, e: Entity, target: Entity, damage: u32) -> bool {
    let from = position_of(l0, e).unwrap();
    let to = position_of(l0, target).unwrap();
    if attack_reaches(from, to, 1, 1) {
        exists|died: bool| #[trigger] attack_done(l0, l1, damage, e, target, died)
    } else {
        chased(l0, l1, e, to)
    }
}

fn bite_or_chase(e: Entity, target: Entity, damage: u32, level: &mut Level)
    requires
        old(level).wf(),
        position_of(*old(level), e) is Some,
        position_of(*old(level), target) is Some,
        attackable_of(*old(level), target) is Some,
    ensures
        final(level).wf(),
        bit_or_chased(*old(level), *final(level), e, target, damage),
{
    let ti = level.index_of(target).unwrap();
    proof {
        lemma_index_unique(level.records@, level.next_id, target, ti as int);
    }
    let to = level.records[ti].position.unwrap();
    assert(near(level.records@[ti as int].position.unwrap()));
    let ghost l0 = *level;
    match try_attack(damage, 1, 1, e, target, level) {
        Ok(died) => {
            assert(attack_done(l0, *level, damage, e, target, died));
        },
        Err(()) => {
            try_move_towards(e, to, level);
        },
    }
}

/// What every turn of a monster keeps: the level stays well formed, the
/// part of the game and the clock stay, ids only grow, and the log only
/// gains messages.
pub open spec fn turn_frame(l0: Level, l1: Level) -> bool {
    &&& l1.wf()
    &&& l1.game_state == l0.game_state
    &&& l1.now_ms == l0.now_ms
    &&& l1.next_id >= l0.next_id
    &&& l1.message_log@.len() >= l0.message_log@.len()
    &&& l1.message_log@.subrange(0, l0.message_log@.len() as int) == l0.message_log@
}

/// Whether `e` stands somewhere and `t` stands somewhere with health.
pub open spec fn both_standing(l: Level, e: Entity, t: Entity) -> bool {
    position_of(l, e) is Some && position_of(l, t) is Some && attackable_of(l, t) is Some
}

fn standing(level: &Level, e: Entity) -> (r: Option<(Position, bool)>)
    requires
        level.wf(),
    ensures
        r is Some <==> position_of(*level, e) is Some,
        r matches Some((p, h)) ==> position_of(*level, e) == Some(p) && near(p) && h == (attackable_of(*level, e) is Some),
{
    match level.index_of(e) {
        Some(i) => {
            proof {
                lemma_index_unique(level.records@, level.next_id, e, i as int);
            }
            let r = level.records[i];
            match r.position {
                Some(p) => {
                    assert(near(level.records@[i as int].position.unwrap()));
                    Some((p, r.attackable.is_some()))
                },
                None => None,
            }
        },
        None => None,
    }
}

/// `l1` is `l0` after a Phase Bat `e` took its turn against `t`: in reach
/// (one tile along an axis) it bites for three and, when that did not
/// kill, may bite again for two; out of reach it chases `t`.
pub open spec fn phase_bat_done(l0: Level, l1: Level, e: Entity, t: Entity) -> bool {
    let from = position_of(l0, e).unwrap();
    let to = position_of(l0, t).unwrap();
    if attack_reaches(from, to, 1, 1) {
        exists|l: Level, died: bool|
            #[trigger] attack_done(l0, l, 3, e, t, died) && (l1 == l || !died && exists|died2: bool|
                #[trigger] attack_done(l, l1, 2, e, t, died2))
    } else {
        chased(l0, l1, e, to)
    }
}

fn phase_bat_turn(e: Entity, t: Entity, level: &mut Level, rng: &mut Pcg64)
    requires
        old(level).wf(),
        both_standing(*old(level), e, t),
    ensures
        final(level).wf(),
        phase_bat_done(*old(level), *final(level), e, t),
{
    let (to, _) = standing(level, t).unwrap();
    let ghost l0 = *level;
    match try_attack(3, 1, 1, e, t, level) {
        Ok(died) => {
            let ghost l = *level;
            assert(attack_done(l0, l, 3, e, t, died));
            if !died {
                let again = gen_ratio(rng, 1, 7);
                if again {
                    match (standing(level, e), standing(level, t)) {
                        (Some(_), Some((_, true))) => {
                            match try_attack(2, 1, 1, e, t, level) {
                                Ok(died2) => {
                                    assert(attack_done(l, *level, 2, e, t, died2));
                                },
                                Err(()) => {},
                            }
                        },
                        _ => {},
                    }
                }
            }
        },
        Err(()) => {
            try_move_towards(e, to, level);
        },
    }
}

/// `l1` is `l0`, or `l0` with `e` moved one step in direction `d`.
pub open spec fn stayed_or_stepped(l0: Level, l1: Level, e: Entity, d: Direction) -> bool {
    let i = index_of_spec(l0.records@, e).unwrap();
    let start = l0.records@[i].position.unwrap();
    ||| l1 == l0
    ||| l1 == (Level { records: l1.records, ..l0 }) && l1.records@ == l0.records@.update(
        i,
        LevelRecord { position: Some(step_from(start, d)), ..l0.records@[i] },
    )
}

/// `l1` is `l0` after a Skeleton Scout `e` took its turn against `t`: in
/// reach (one or two tiles along an axis) it may first step (see
/// `scout_step`), only when one tile away along an axis, and then attacks
/// for five when still in reach; out of reach it chases `t`.
pub open spec fn skeleton_scout_done(l0: Level, l1: Level, e: Entity, t: Entity) -> bool {
    let from = position_of(l0, e).unwrap();
    let to = position_of(l0, t).unwrap();
    let cx = from.x - to.x;
    let cy = from.y - to.y;
    if attack_reaches(from, to, 1, 2) {
        exists|l: Level|
            #[trigger] stayed_or_stepped(l0, l, e, scout_step(cx, cy)) && (l != l0 ==> abs(cx) == 1 || abs(cy)
                == 1) && (l1 == l || exists|died: bool| #[trigger] attack_done(l, l1, 5, e, t, died))
    } else {
        chased(l0, l1, e, to)
    }
}

/// The step a scout takes before attacking, from its offset `(cx, cy)` to
/// the player: up, unless left (the player is to its right), right (to its
/// left) or down (above it; this wins).
pub open spec fn scout_step(cx: int, cy: int) -> Direction {
    if cy < 0 {
        Direction::Down
    } else if cx > 0 {
        Direction::Right
    } else if cx < 0 {
        Direction::Left
    } else {
        Direction::Up
    }
}

fn skeleton_scout_turn(e: Entity, t: Entity, level: &mut Level, rng: &mut Pcg64)
    requires
        old(level).wf(),
        both_standing(*old(level), e, t),
    ensures
        final(level).wf(),
        skeleton_scout_done(*old(level), *final(level), e, t),
{
    let (from, _) = standing(level, e).unwrap();
    let (to, _) = standing(level, t).unwrap();
    if can_attack(1, 2, e, t, level) {
        let cx = from.x as i32 - to.x as i32;
        let cy = from.y as i32 - to.y as i32;
        let roll = gen_ratio(rng, 1, 4);
        let ghost l0 = *level;
        if roll && (cx == 1 || cx == -1 || cy == 1 || cy == -1) {
            let mut d = Direction::Up;
            if cx < 0 {
                d = Direction::Left;
            }
            if cx > 0 {
                d = Direction::Right;
            }
            if cy < 0 {
                d = Direction::Down;
            }
            let i = level.index_of(e).unwrap();
            proof {
                lemma_index_unique(level.records@, level.next_id, e, i as int);
            }
            let _ = try_move(e, d, level);
            proof {
                if *level != l0 {
                    assert(level.records@ == l0.records@.update(
                        i as int,
                        LevelRecord { position: Some(step_from(from, d)), ..l0.records@[i as int] },
                    ));
                }
            }
        }
        let ghost l = *level;
        assert(stayed_or_stepped(l0, l, e, scout_step(cx as int, cy as int)));
        match (standing(level, e), standing(level, t)) {
            (Some(_), Some((_, true))) => {
                match try_attack(5, 1, 2, e, t, level) {
                    Ok(died) => {
                        assert(attack_done(l, *level, 5, e, t, died));
                    },
                    Err(()) => {},
                }
            },
            _ => {},
        }
    } else {
        try_move_towards(e, to, level);
    }
}

/// Whether `e` can take a step in direction `d`: it is not held, and the
/// tile there is near the origin and free.
pub open spec fn can_step(l: Level, e: Entity, d: Direction) -> bool {
    let r = record_of(l.records@, e).unwrap();
    let target = step_from(r.position.unwrap(), d);
    !crate::level::held(r) && near(target) && tile_free(l.records@, target)
}

/// Whether `e` can take a step in direction `d` (see `can_step`); `e` must
/// have a position.
pub fn can_move(e: Entity, d: Direction, level: &Level) -> (r: bool)
    requires
        level.wf(),
        position_of(*level, e) is Some,
    ensures
        r == can_step(*level, e, d),
{
    let i = level.index_of(e).unwrap();
    proof {
        lemma_index_unique(level.records@, level.next_id, e, i as int);
    }
    let rec = level.records[i];
    let p = rec.position.unwrap();
    assert(near(level.records@[i as int].position.unwrap()));
    let target = crate::level::step_position(p, d);
    let is_held = match rec.attackable {
        Some(a) => a.cant_move_turns > 0,
        None => false,
    };
    !is_held && -32767 <= target.x && target.x <= 32766 && -32767 <= target.y && target.y <= 32766
        && crate::level::is_tile_free(level, target)
}

/// The taxicab distance between two tiles.
pub open spec fn taxicab(a: Position, b: Position) -> int {
    abs(a.x - b.x) + abs(a.y - b.y)
}

/// The directions along an axis, in the order a Jack Spectre tries them.
pub open spec fn axis_dirs() -> Seq<Direction> {
    seq![Direction::Up, Direction::Down, Direction::Left, Direction::Right]
}

/// Whether `e` (on `from`) can back away from `to` in direction `d`: it can
/// step there (see `can_step`), and the tile is farther from `to`.
pub open spec fn backs_away(l: Level, e: Entity, from: Position, to: Position, d: Direction) -> bool {
    can_step(l, e, d) && taxicab(to, step_from(from, d)) > taxicab(to, from)
}

/// `l1` is `l0` with `e` (on `from`) stepped away from `to` in the first
/// direction of `axis_dirs` it can back away in, or `l0` itself when there
/// is none.
pub open spec fn retreated(l0: Level, l1: Level, e: Entity, from: Position, to: Position) -> bool {
    let i = index_of_spec(l0.records@, e).unwrap();
    ||| (forall|k: int| 0 <= k < 4 ==> !#[trigger] backs_away(l0, e, from, to, axis_dirs()[k])) && l1 == l0
    ||| exists|k: int|
        {
            &&& 0 <= k < 4
            &&& #[trigger] backs_away(l0, e, from, to, axis_dirs()[k])
            &&& forall|j: int| 0 <= j < k ==> !backs_away(l0, e, from, to, axis_dirs()[j])
            &&& l1 == (Level { records: l1.records, ..l0 })
            &&& l1.records@ == l0.records@.update(
                i,
                LevelRecord { position: Some(step_from(from, axis_dirs()[k])), ..l0.records@[i] },
            )
        }
}

/// Whether a monster can be summoned on the tile next to `from` in direction
/// `d`: it is near the origin, no obstacle stands there, and there is an
/// identity left to give.
pub open spec fn summon_spot(l: Level, from: Position, d: Direction) -> bool {
    &&& near(step_from(from, d))
    &&& !level_obstacles(l.records@).contains(pc(step_from(from, d)))
    &&& l.next_id < u64::MAX
}

/// `l1` is `l0` (no summoning, by chance, or no tile for it), or `l0` with a
/// common monster of the first class added on the first tile next to `from`
/// along `axis_dirs` that can take one (see `summon_spot`).
pub open spec fn summoned(l0: Level, l1: Level, from: Position) -> bool {
    ||| l1 == l0
    ||| exists|k: int|
        {
            &&& 0 <= k < 4
            &&& #[trigger] summon_spot(l0, from, axis_dirs()[k])
            &&& forall|j: int| 0 <= j < k ==> !summon_spot(l0, from, axis_dirs()[j])
            &&& l1 == Level { records: l1.records, next_id: (l0.next_id + 1) as u64, ..l0 }
            &&& l1.records@.drop_last() == l0.records@
            &&& l1.records@.len() == l0.records@.len() + 1
            &&& l1.records@.last().position == Some(step_from(from, axis_dirs()[k]))
            &&& class1_choices(Rarity::Common).contains(l1.records@.last().name.unwrap().text)
        }
}

/// `l1` is `l0` after one round of a Jack Spectre `e` against `t`, and
/// `after` tells whether it has attacked this turn (`before` whether it had
/// already): in reach (one tile along an axis) it attacks for six the first
/// time; after that it backs away (see `retreated`) and may summon a
/// common monster beside where it stood (see `summoned`); out of reach it
/// chases `t`. A round with either missing does nothing.
pub open spec fn spectre_round(l0: Level, l1: Level, e: Entity, t: Entity, before: bool, after: bool) -> bool {
    if !both_standing(l0, e, t) {
        l1 == l0 && after == before
    } else {
        let from = position_of(l0, e).unwrap();
        let to = position_of(l0, t).unwrap();
        if attack_reaches(from, to, 1, 1) {
            &&& after
            &&& if before {
                exists|l: Level| #[trigger] retreated(l0, l, e, from, to) && summoned(l, l1, from)
            } else {
                exists|died: bool| #[trigger] attack_done(l0, l1, 6, e, t, died)
            }
        } else {
            after == before && chased(l0, l1, e, to)
        }
    }
}

/// `l1` is `l0` with `e`'s counter set back to zero, when it is still
/// there.
pub open spec fn counter_reset(l0: Level, l1: Level, e: Entity) -> bool {
    match index_of_spec(l0.records@, e) {
        Some(i) => l1 == (Level { records: l1.records, ..l0 }) && l1.records@ == l0.records@.update(
            i,
            LevelRecord { counter: Some(Counter(0)), ..l0.records@[i] },
        ),
        None => l1 == l0,
    }
}

/// `l1` is `l0` after a Jack Spectre `e` took its turn against `t`: two
/// rounds (see `spectre_round`), starting as if it had attacked when its
/// counter is one, then its counter goes back to zero.
pub open spec fn jack_spectre_done(l0: Level, l1: Level, e: Entity, t: Entity) -> bool {
    let start = record_of(l0.records@, e).unwrap().counter == Some(Counter(1));
    exists|la: Level, lb: Level, a1: bool, a2: bool|
        #[trigger] spectre_round(l0, la, e, t, start, a1) && #[trigger] spectre_round(la, lb, e, t, a1, a2)
            && counter_reset(lb, l1, e)
}

fn spectre_round_exec(e: Entity, t: Entity, attacked: bool, level: &mut Level, rng: &mut Pcg64) -> (after: bool)
    requires
        old(level).wf(),
    ensures
        final(level).wf(),
        spectre_round(*old(level), *final(level), e, t, attacked, after),
{
    let (from, to) = match (standing(level, e), standing(level, t)) {
        (Some((f, _)), Some((g, true))) => (f, g),
        _ => {
            return attacked;
        },
    };
    if !can_attack(1, 1, e, t, level) {
        try_move_towards(e, to, level);
        return attacked;
    }
    let ghost l0 = *level;
    if !attacked {
        match try_attack(6, 1, 1, e, t, level) {
            Ok(died) => {
                assert(attack_done(l0, *level, 6, e, t, died));
            },
            Err(()) => {},
        }
        return true;
    }
    let i = level.index_of(e).unwrap();
    proof {
        lemma_index_unique(level.records@, level.next_id, e, i as int);
    }
    let distance = to.distance_from(from);
    let dirs = [Direction::Up, Direction::Down, Direction::Left, Direction::Right];
    let mut k: usize = 0;
    while k < 4
        invariant_except_break
            *level == l0,
            forall|j: int| 0 <= j < k ==> !#[trigger] backs_away(l0, e, from, to, axis_dirs()[j]),
        invariant
            k <= 4,
            level.wf(),
            dirs@ == axis_dirs(),
            index_of_spec(l0.records@, e) == Some(i as int),
            position_of(l0, e) == Some(from),
            near(from),
            near(to),
            distance == taxicab(to, from),
        ensures
            retreated(l0, *level, e, from, to),
        decreases 4 - k,
    {
        let d = dirs[k];
        let new = crate::level::step_position(from, d);
        if can_move(e, d, level) && to.distance_from_tuple((new.x as i32, new.y as i32)) > distance {
            let _ = try_move(e, d, level);
            proof {
                assert(taxicab(to, step_from(from, d)) > taxicab(to, from));
                assert(backs_away(l0, e, from, to, axis_dirs()[k as int]));
            }
            break;
        }
        k = k + 1;
    }
    let ghost l = *level;
    let summon = gen_ratio(rng, 1, 6);
    if summon {
        let obstacles = obstacle_tiles(level);
        let mut k: usize = 0;
        let mut done = false;
        while k < 4 && !done
            invariant
                k <= 4,
                level.wf(),
                dirs@ == axis_dirs(),
                obstacles@ == level_obstacles(l.records@),
                near(from),
                !done ==> *level == l,
                !done ==> forall|j: int| 0 <= j < k ==> !#[trigger] summon_spot(l, from, axis_dirs()[j]),
                summoned(l, *level, from),
            decreases 4 - k,
        {
            let d = dirs[k];
            let sp = crate::level::step_position(from, d);
            let spc = PositionComponent { x: sp.x as i32, y: sp.y as i32 };
            if -32767 <= sp.x && sp.x <= 32766 && -32767 <= sp.y && sp.y <= 32766 && !contains_tile(&obstacles, spc)
                && level.next_id < u64::MAX {
                create_random_class1(Rarity::Common, sp, level, rng);
                assert(pc(step_from(from, d)) == spc);
                assert(summon_spot(l, from, axis_dirs()[k as int]));
                done = true;
            } else {
                assert(pc(step_from(from, d)) == spc);
            }
            k = k + 1;
        }
    }
    true
}

pub(crate) fn contains_tile(tiles: &Vec<PositionComponent>, p: PositionComponent) -> (r: bool)
    ensures
        r == tiles@.contains(p),
{
    let mut i: usize = 0;
    while i < tiles.len()
        invariant
            i <= tiles@.len(),
            forall|j: int| 0 <= j < i ==> tiles@[j] != p,
        decreases tiles@.len() - i,
    {
        if tiles[i] == p {
            assert(tiles@[i as int] == p);
            return true;
        }
        i = i + 1;
    }
    false
}

fn jack_spectre_turn(e: Entity, t: Entity, level: &mut Level, rng: &mut Pcg64)
    requires
        old(level).wf(),
        record_of(old(level).records@, e) is Some,
    ensures
        final(level).wf(),
        jack_spectre_done(*old(level), *final(level), e, t),
{
    let i = level.index_of(e).unwrap();
    let start = match level.records[i].counter {
        Some(c) => c.0 == 1,
        None => false,
    };
    proof {
        lemma_index_unique(level.records@, level.next_id, e, i as int);
    }
    let ghost l0 = *level;
    assert(start == (record_of(l0.records@, e).unwrap().counter == Some(Counter(1))));
    let a1 = spectre_round_exec(e, t, start, level, rng);
    let ghost la = *level;
    let a2 = spectre_round_exec(e, t, a1, level, rng);
    let ghost lb = *level;
    match level.index_of(e) {
        Some(j) => {
            let r = level.records[j];
            assert(r.position matches Some(q) ==> near(q));
            level.set_record(j, LevelRecord { counter: Some(Counter(0)), ..r });
        },
        None => {},
    }
    assert(spectre_round(l0, la, e, t, record_of(l0.records@, e).unwrap().counter == Some(Counter(1)), a1));
    assert(spectre_round(la, lb, e, t, a1, a2));
    assert(counter_reset(lb, *level, e));
    assert(l0 == *old(level));
    assert(jack_spectre_done(l0, *level, e, t));
}

/// A Soul Spectre (sixteen health, fifty crystals, a counter at zero) on
/// `p`.
pub fn create_soul_spectre(p: Position, level: &mut Level) -> (e: Entity)
    requires
        old(level).wf(),
        old(level).next_id < u64::MAX,
        near(p),
    ensures
        final(level).wf(),
        e.id == old(level).next_id,
        added(
            *old(level),
            *final(level),
            monster_record(
                e,
                "Soul Spectre",
                p,
                "soul_spectre",
                Some(Attackable { crystals_dropped_on_death: 50, ..plain(16) }),
                Some(Behaviour::SoulSpectre),
                Some(Counter(0)),
                false,
            ),
        ),
{
    add_monster(
        level,
        "Soul Spectre",
        p,
        "soul_spectre",
        Some(Attackable::new(16, 50, false)),
        Some(Behaviour::SoulSpectre),
        Some(Counter(0)),
        false,
    )
}

/// What a Soul Spectre `e` says and feels at the start of its turn against
/// `t`: it greets when its counter is zero and `t` is within six tiles
/// (taxicab); it is angered when hurt and `t` is within six tiles, and
/// complains unless it already was. Returns whether it greets, whether it
/// complains, and its new counter (one after a greeting, two once angered;
/// a missing counter counts as zero).
pub open spec fn soul_spectre_mood(l0: Level, e: Entity, t: Entity) -> (bool, bool, u32) {
    let r = record_of(l0.records@, e).unwrap();
    let c0: u32 = match r.counter {
        Some(c) => c.0,
        None => 0,
    };
    let a = r.attackable;
    let close = taxicab(position_of(l0, e).unwrap(), position_of(l0, t).unwrap()) <= 6;
    let greets = c0 == 0 && close;
    let c1: u32 = if greets {
        1
    } else {
        c0
    };
    let angry = a matches Some(h) && h.current_health != h.max_health && close;
    let complains = angry && c1 != 2;
    (greets, complains, if angry {
        2
    } else {
        c1
    })
}

/// The Soul Spectre's greeting.
pub open spec fn soul_greeting() -> Seq<char> {
    "Hello there. May I have your soul?"@
}

/// The Soul Spectre's complaint once angered.
pub open spec fn soul_complaint() -> Seq<char> {
    "Wow, that was rude. All I was asking for was your immortal soul, no need to overreact. Now I'm ANRGY!"@
}

/// `l1` is `l0` after the Soul Spectre `e` spoke (see `soul_spectre_mood`):
/// its counter is the new one, the greeting (white) and the complaint (red)
/// are logged in that order when they are said, both for a medium time,
/// and nothing else changed.
pub open spec fn soul_spectre_talked(l0: Level, l1: Level, e: Entity, t: Entity) -> bool {
    let i = index_of_spec(l0.records@, e).unwrap();
    let (greets, complains, c) = soul_spectre_mood(l0, e, t);
    let n0 = l0.message_log@.len();
    let g: int = if greets {
        1
    } else {
        0
    };
    &&& l1 == (Level { records: l1.records, message_log: l1.message_log, ..l0 })
    &&& l1.records@ == l0.records@.update(i, LevelRecord { counter: Some(Counter(c)), ..l0.records@[i] })
    &&& l1.message_log@.len() == n0 + g + if complains {
        1int
    } else {
        0int
    }
    &&& l1.message_log@.subrange(0, n0 as int) == l0.message_log@
    &&& greets ==> {
        &&& l1.message_log@[n0 as int].text@ == soul_greeting()
        &&& l1.message_log@[n0 as int].color == MessageColor::White
        &&& l1.message_log@[n0 as int].display_length == MessageDisplayLength::Medium
        &&& l1.message_log@[n0 as int].time_created == l0.now_ms
    }
    &&& complains ==> {
        &&& l1.message_log@[n0 + g].text@ == soul_complaint()
        &&& l1.message_log@[n0 + g].color == MessageColor::Red
        &&& l1.message_log@[n0 + g].display_length == MessageDisplayLength::Medium
        &&& l1.message_log@[n0 + g].time_created == l0.now_ms
    }
}

/// `l1` is `l0` (no summoning, by chance, or no tile for it), or `l0` with
/// a Discordant Soul added on the first tile next to `from` along
/// `axis_dirs` that can take one (see `summon_spot`).
pub open spec fn soul_summoned(l0: Level, l1: Level, from: Position) -> bool {
    ||| l1 == l0
    ||| exists|k: int|
        {
            &&& 0 <= k < 4
            &&& #[trigger] summon_spot(l0, from, axis_dirs()[k])
            &&& forall|j: int| 0 <= j < k ==> !summon_spot(l0, from, axis_dirs()[j])
            &&& added(
                l0,
                l1,
                monster_record(
                    Entity { id: l0.next_id },
                    "Discordant Soul",
                    step_from(from, axis_dirs()[k]),
                    "discordant_soul",
                    Some(Attackable { crystals_dropped_on_death: 5, ..plain(6) }),
                    Some(Behaviour::DiscordantSoul),
                    None,
                    false,
                ),
            )
        }
}

/// `l1` is `l0` after a Soul Spectre `e` took its turn against `t`: it
/// speaks (see `soul_spectre_talked`); once angered it either summons a
/// Discordant Soul beside itself (by chance, one time in six; see
/// `soul_summoned`) or bites for five when in reach (one tile along an
/// axis), chasing `t` twice otherwise.
pub open spec fn soul_spectre_done(l0: Level, l1: Level, e: Entity, t: Entity) -> bool {
    exists|lm: Level|
        #[trigger] soul_spectre_talked(l0, lm, e, t) && if soul_spectre_mood(l0, e, t).2 == 2 {
            let from = position_of(l0, e).unwrap();
            let to = position_of(l0, t).unwrap();
            ||| soul_summoned(lm, l1, from)
            ||| attack_reaches(from, to, 1, 1) && exists|died: bool| #[trigger] attack_done(lm, l1, 5, e, t, died)
            ||| !attack_reaches(from, to, 1, 1) && exists|lc: Level|
                #[trigger] chased(lm, lc, e, to) && chased(lc, l1, e, to)
        } else {
            l1 == lm
        }
}

fn soul_spectre_turn(e: Entity, t: Entity, level: &mut Level, rng: &mut Pcg64)
    requires
        old(level).wf(),
        both_standing(*old(level), e, t),
    ensures
        final(level).wf(),
        soul_spectre_done(*old(level), *final(level), e, t),
{
    let ghost l0 = *level;
    let i = level.index_of(e).unwrap();
    proof {
        lemma_index_unique(level.records@, level.next_id, e, i as int);
    }
    let r = level.records[i];
    let from = r.position.unwrap();
    let (to, _) = standing(level, t).unwrap();
    let ti = level.index_of(t).unwrap();
    proof {
        lemma_index_unique(level.records@, level.next_id, t, ti as int);
    }
    assert(near(from));
    let c0: u32 = match r.counter {
        Some(c) => c.0,
        None => 0,
    };
    let dx: i32 = if from.x < to.x {
        to.x as i32 - from.x as i32
    } else {
        from.x as i32 - to.x as i32
    };
    let dy: i32 = if from.y < to.y {
        to.y as i32 - from.y as i32
    } else {
        from.y as i32 - to.y as i32
    };
    let close = dx + dy <= 6;
    let greets = c0 == 0 && close;
    let c1 = if greets {
        1
    } else {
        c0
    };
    let angry = match r.attackable {
        Some(h) => h.current_health != h.max_health && close,
        None => false,
    };
    let complains = angry && c1 != 2;
    let c2 = if angry {
        2
    } else {
        c1
    };
    assert(soul_spectre_mood(l0, e, t) == (greets, complains, c2));
    assert(r.position matches Some(q) ==> near(q));
    level.set_record(i, LevelRecord { counter: Some(Counter(c2)), ..r });
    let now = level.now_ms;
    if greets {
        level.message_log.new_message(
            "Hello there. May I have your soul?".to_string(),
            MessageColor::White,
            MessageDisplayLength::Medium,
            now,
        );
    }
    let ghost after_greeting = level.message_log@;
    if complains {
        level.message_log.new_message(
            "Wow, that was rude. All I was asking for was your immortal soul, no need to overreact. Now I'm ANRGY!".to_string(),
            MessageColor::Red,
            MessageDisplayLength::Medium,
            now,
        );
    }
    let ghost lm = *level;
    proof {
        assert(lm.message_log@.subrange(0, l0.message_log@.len() as int) =~= l0.message_log@);
        if complains && greets {
            assert(lm.message_log@[l0.message_log@.len() as int] == after_greeting[l0.message_log@.len() as int]);
        }
        assert(soul_spectre_talked(l0, lm, e, t));
    }
    if c2 != 2 {
        return;
    }
    proof {
        lemma_index_unique(level.records@, level.next_id, e, i as int);
        lemma_index_unique(level.records@, level.next_id, t, ti as int);
    }
    assert(position_of(lm, e) == Some(from));
    assert(position_of(lm, t) == Some(to));
    let summon = gen_ratio(rng, 1, 6);
    if summon {
        let obstacles = obstacle_tiles(level);
        let dirs = [Direction::Up, Direction::Down, Direction::Left, Direction::Right];
        let mut k: usize = 0;
        let mut done = false;
        while k < 4 && !done
            invariant
                k <= 4,
                level.wf(),
                dirs@ == axis_dirs(),
                obstacles@ == level_obstacles(lm.records@),
                near(from),
                !done ==> *level == lm,
                !done ==> forall|j: int| 0 <= j < k ==> !#[trigger] summon_spot(lm, from, axis_dirs()[j]),
                soul_summoned(lm, *level, from),
            decreases 4 - k,
        {
            let d = dirs[k];
            let sp = crate::level::step_position(from, d);
            let spc = PositionComponent { x: sp.x as i32, y: sp.y as i32 };
            if -32767 <= sp.x && sp.x <= 32766 && -32767 <= sp.y && sp.y <= 32766 && !contains_tile(&obstacles, spc)
                && level.next_id < u64::MAX {
                create_discordant_soul(sp, level);
                assert(pc(step_from(from, d)) == spc);
                assert(summon_spot(lm, from, axis_dirs()[k as int]));
                done = true;
            } else {
                assert(pc(step_from(from, d)) == spc);
            }
            k = k + 1;
        }
        assert(soul_spectre_done(l0, *level, e, t));
        return;
    }
    match try_attack(5, 1, 1, e, t, level) {
        Ok(died) => {
            assert(attack_done(lm, *level, 5, e, t, died));
        },
        Err(()) => {
            try_move_towards(e, to, level);
            let ghost lc = *level;
            proof {
                lemma_index_unique(level.records@, level.next_id, e, i as int);
            }
            try_move_towards(e, to, level);
            assert(chased(lm, lc, e, to) && chased(lc, *level, e, to));
        },
    }
}

/// `l1` is `l0` after the monster `e` with behaviour `b` took its turn
/// against `t`.
pub open spec fn behaviour_done(b: Behaviour, l0: Level, l1: Level, e: Entity, t: Entity) -> bool {
    match b {
        Behaviour::PhaseBat => phase_bat_done(l0, l1, e, t),
        Behaviour::DangerSpider => bit_or_chased(l0, l1, e, t, 5),
        Behaviour::PungentOoze => bit_or_chased(l0, l1, e, t, 3),
        Behaviour::SkeletonScout => skeleton_scout_done(l0, l1, e, t),
        Behaviour::VolatileHusk => bit_or_chased(l0, l1, e, t, 2),
        Behaviour::JackSpectre => jack_spectre_done(l0, l1, e, t),
        Behaviour::ArcaneOoze => bit_or_chased(l0, l1, e, t, 6),
        Behaviour::DiscordantSoul => bit_or_chased(l0, l1, e, t, 3),
        Behaviour::SoulSpectre => soul_spectre_done(l0, l1, e, t),
    }
}

/// The monster `e` with behaviour `b` takes its turn against `t` (see
/// `behaviour_done`): a Phase Bat bites for three, a Danger! Spider for
/// five, a Pungent Ooze for three, a Volatile Husk for two, an Arcane Ooze
/// for six and a Discordant Soul for three (each chasing
/// when out of reach); a Skeleton Scout and a Jack Spectre act as
/// `skeleton_scout_done` and `jack_spectre_done` say.
pub fn run_behaviour(b: Behaviour, e: Entity, t: Entity, level: &mut Level, rng: &mut Pcg64)
    requires
        old(level).wf(),
        both_standing(*old(level), e, t),
    ensures
        final(level).wf(),
        behaviour_done(b, *old(level), *final(level), e, t),
{
    match b {
        Behaviour::PhaseBat => phase_bat_turn(e, t, level, rng),
        Behaviour::DangerSpider => bite_or_chase(e, t, 5, level),
        Behaviour::PungentOoze => bite_or_chase(e, t, 3, level),
        Behaviour::SkeletonScout => skeleton_scout_turn(e, t, level, rng),
        Behaviour::VolatileHusk => bite_or_chase(e, t, 2, level),
        Behaviour::JackSpectre => jack_spectre_turn(e, t, level, rng),
        Behaviour::ArcaneOoze => bite_or_chase(e, t, 6, level),
        Behaviour::DiscordantSoul => bite_or_chase(e, t, 3, level),
        Behaviour::SoulSpectre => soul_spectre_turn(e, t, level, rng),
    }
}

} // verus!
