//! Attacks of the item-and-crystal rules: who can reach whom, and what a
//! hit does to the target (oozing, hastened spawners, death with its blast,
//! boss reward and dropped crystals).

use crate::components::abs;
use crate::data::{Attackable, MessageColor, MessageDisplayLength, Name, Position, Spawner, Sprite, Staircase};
use crate::level::{
    bare, index_of_spec, is_index_of, lemma_index_unique, near, record_of, records_ok, Level, LevelRecord,
};
use crate::world::Entity;
use vstd::prelude::*;

verus! {

broadcast use vstd::string::group_string_axioms;

/// Whether `target` is in a straight line from `attacker`, between `min`
/// and `max` tiles away.
pub open spec fn attack_reaches(attacker: Position, target: Position, min: u32, max: u32) -> bool {
    let x_gap = abs(attacker.x - target.x);
    let y_gap = abs(attacker.y - target.y);
    (x_gap == 0 || y_gap == 0) && min <= x_gap + y_gap <= max
}

fn gap_of(a: i16, b: i16) -> (g: u32)
    ensures
        g == abs(a - b),
{
    if a < b {
        (b as i32 - a as i32) as u32
    } else {
        (a as i32 - b as i32) as u32
    }
}

/// The position of `e`'s record.
pub open spec fn position_of(l: Level, e: Entity) -> Option<Position> {
    match record_of(l.records@, e) {
        Some(r) => r.position,
        None => None,
    }
}

/// The health of `e`'s record.
pub open spec fn attackable_of(l: Level, e: Entity) -> Option<Attackable> {
    match record_of(l.records@, e) {
        Some(r) => r.attackable,
        None => None,
    }
}

/// Whether `attacker` can attack `target` from where they stand (see
/// `attack_reaches`). Both must have a position.
pub fn can_attack(minimum_range: u32, maximum_range: u32, attacker: Entity, target: Entity, level: &Level) -> (r:
    bool)
    requires
        level.wf(),
        position_of(*level, attacker) is Some,
        position_of(*level, target) is Some,
    ensures
        r == attack_reaches(
            position_of(*level, attacker).unwrap(),
            position_of(*level, target).unwrap(),
            minimum_range,
            maximum_range,
        ),
{
    let ai = level.index_of(attacker).unwrap();
    let ti = level.index_of(target).unwrap();
    let a = level.records[ai].position.unwrap();
    let t = level.records[ti].position.unwrap();
    assert(near(level.records@[ai as int].position.unwrap()));
    assert(near(level.records@[ti as int].position.unwrap()));
    let x_gap = gap_of(a.x, t.x);
    let y_gap = gap_of(a.y, t.y);
    (x_gap == 0 || y_gap == 0) && minimum_range <= x_gap + y_gap && x_gap + y_gap <= maximum_range
}

/// Whether a record has health left.
pub open spec fn alive(r: LevelRecord) -> bool {
    r.attackable matches Some(a) && a.current_health > 0
}

/// The number of records with health left.
pub open spec fn alive_count(rs: Seq<LevelRecord>) -> nat
    decreases rs.len(),
{
    if rs.len() == 0 {
        0
    } else {
        alive_count(rs.drop_last()) + if alive(rs.last()) {
            1nat
        } else {
            0nat
        }
    }
}

proof fn lemma_alive_update(rs: Seq<LevelRecord>, i: int, r: LevelRecord)
    requires
        0 <= i < rs.len(),
    ensures
        alive_count(rs.update(i, r)) + (if alive(rs[i]) {
            1int
        } else {
            0int
        }) == alive_count(rs) + (if alive(r) {
            1int
        } else {
            0int
        }),
    decreases rs.len(),
{
    if i < rs.len() - 1 {
        lemma_alive_update(rs.drop_last(), i, r);
        assert(rs.update(i, r).drop_last() =~= rs.drop_last().update(i, r));
    } else {
        assert(rs.update(i, r).drop_last() =~= rs.drop_last());
    }
}

proof fn lemma_alive_remove(rs: Seq<LevelRecord>, i: int)
    requires
        0 <= i < rs.len(),
    ensures
        alive_count(rs.remove(i)) + (if alive(rs[i]) {
            1int
        } else {
            0int
        }) == alive_count(rs),
    decreases rs.len(),
{
    if i < rs.len() - 1 {
        lemma_alive_remove(rs.drop_last(), i);
        assert(rs.remove(i).drop_last() =~= rs.drop_last().remove(i));
    } else {
        assert(rs.remove(i) =~= rs.drop_last());
    }
}

proof fn lemma_alive_push(rs: Seq<LevelRecord>, r: LevelRecord)
    ensures
        alive_count(rs.push(r)) == alive_count(rs) + if alive(r) {
            1nat
        } else {
            0nat
        },
{
    assert(rs.push(r).drop_last() =~= rs);
}

/// The damage a hit deals: the base damage, plus the target's ooze stacks
/// when the attacker oozes.
pub open spec fn effective_damage(damage: u32, target: Attackable, attacker: Option<Attackable>) -> u32 {
    if attacker matches Some(a) && a.is_oozing {
        if damage + target.oozed_stacks > u32::MAX {
            u32::MAX
        } else {
            (damage + target.oozed_stacks) as u32
        }
    } else {
        damage
    }
}

/// The target's health after the hit: the effective damage is taken (not
/// below zero), and a melee hit of an oozing attacker adds an ooze stack.
pub open spec fn hit_attackable(damage: u32, is_melee: bool, target: Attackable, attacker: Option<Attackable>) -> Attackable {
    let d = effective_damage(damage, target, attacker);
    Attackable {
        current_health: if target.current_health > d {
            (target.current_health - d) as u32
        } else {
            0
        },
        oozed_stacks: if attacker matches Some(a) && a.is_oozing && is_melee && target.oozed_stacks < u32::MAX {
            (target.oozed_stacks + 1) as u32
        } else {
            target.oozed_stacks
        },
        ..target
    }
}

/// Whether a hit on `target` hastens the spawners: it has a threshold and
/// a number of turns, and its health before the hit is at or below the
/// threshold.
pub open spec fn hastens(target: Attackable) -> bool {
    let (threshold, turns) = target.lower_spawn_times;
    threshold != 0 && turns != 0 && target.current_health * 1000 <= threshold * target.max_health
}

/// A spawner hastened by `turns` turns, never below ten turns per spawn.
pub open spec fn hastened(s: Spawner, turns: u32) -> Spawner {
    let t: int = if s.turns_per_spawn > turns {
        s.turns_per_spawn - turns
    } else {
        0
    };
    let tps: u32 = if t < 10 {
        10
    } else {
        t as u32
    };
    Spawner { turns_per_spawn: tps, ..s }
}

/// Every spawner hastened by `turns` turns.
pub open spec fn spawners_hastened(rs: Seq<LevelRecord>, turns: u32) -> Seq<LevelRecord> {
    rs.map_values(
        |r: LevelRecord|
            match r.spawner {
                Some(s) => LevelRecord { spawner: Some(hastened(s, turns)), ..r },
                None => r,
            },
    )
}

/// The records after the hit on record `i` (see `hit_attackable` and
/// `hastens`).
pub open spec fn hit_records(
    rs: Seq<LevelRecord>,
    i: int,
    damage: u32,
    is_melee: bool,
    attacker: Option<Attackable>,
) -> Seq<LevelRecord> {
    let t = rs[i].attackable.unwrap();
    let rs1 = rs.update(i, LevelRecord { attackable: Some(hit_attackable(damage, is_melee, t, attacker)), ..rs[i] });
    if hastens(t) {
        spawners_hastened(rs1, t.lower_spawn_times.1)
    } else {
        rs1
    }
}

fn hasten_spawners(level: &mut Level, turns: u32)
    requires
        old(level).wf(),
    ensures
        final(level).wf(),
        final(level).records@ == spawners_hastened(old(level).records@, turns),
        final(level).next_id == old(level).next_id,
        final(level).message_log == old(level).message_log,
        final(level).game_state == old(level).game_state,
        final(level).now_ms == old(level).now_ms,
{
    let ghost rs = level.records@;
    let mut i: usize = 0;
    while i < level.records.len()
        invariant
            level.wf(),
            level.records@.len() == rs.len(),
            i <= rs.len(),
            level.next_id == old(level).next_id,
            level.message_log == old(level).message_log,
            level.game_state == old(level).game_state,
            level.now_ms == old(level).now_ms,
            forall|k: int|
                0 <= k < rs.len() ==> #[trigger] level.records@[k] == if k < i {
                    spawners_hastened(rs, turns)[k]
                } else {
                    rs[k]
                },
        decreases rs.len() - i,
    {
        let r = level.records[i];
        match r.spawner {
            Some(s) => {
                let left = if s.turns_per_spawn > turns {
                    s.turns_per_spawn - turns
                } else {
                    0
                };
                let tps = if left < 10 {
                    10
                } else {
                    left
                };
                level.set_record(i, LevelRecord { spawner: Some(Spawner { turns_per_spawn: tps, ..s }), ..r });
            },
            None => {},
        }
        i = i + 1;
    }
    assert(level.records@ =~= spawners_hastened(rs, turns));
}

/// The text `format!` gives "{} exploded!" for `name`.
pub open spec fn exploded_text(name: Seq<char>) -> Seq<char> {
    name + " exploded!"@
}

/// `std::format!` with "{} exploded!": the name followed by " exploded!".
#[verifier::external_body]
fn format_exploded(name: &str) -> (s: String)
    ensures
        s@ == exploded_text(name@),
{
    format!("{} exploded!", name)
}

/// The entities with a position and health whose coordinates exceed the
/// centre's by at most `radius` (as an `i16`) on both axes, in table order.
pub open spec fn in_blast(r: LevelRecord, center: Position, radius: i16) -> bool {
    &&& r.attackable is Some
    &&& r.position matches Some(p) && p.x - center.x <= radius && p.y - center.y <= radius
}

/// The entities `in_blast`, in table order.
pub open spec fn blast_targets(rs: Seq<LevelRecord>, center: Position, radius: i16) -> Seq<Entity> {
    rs.filter(|r: LevelRecord| in_blast(r, center, radius)).map_values(|r: LevelRecord| r.entity)
}

#[verifier::truncate]
fn radius_as_i16(r: u32) -> (s: i16)
    ensures
        s == r as i16,
{
    r as i16
}

fn collect_blast_targets(level: &Level, center: Position, radius: i16) -> (r: Vec<Entity>)
    requires
        level.wf(),
        near(center),
    ensures
        r@ == blast_targets(level.records@, center, radius),
{
    let ghost rs = level.records@;
    let mut r: Vec<Entity> = Vec::new();
    let mut i: usize = 0;
    while i < level.records.len()
        invariant
            rs == level.records@,
            level.wf(),
            near(center),
            i <= rs.len(),
            r@ == blast_targets(rs.subrange(0, i as int), center, radius),
        decreases rs.len() - i,
    {
        let rec = level.records[i];
        proof {
            assert(rs.subrange(0, i + 1).drop_last() =~= rs.subrange(0, i as int));
            reveal_with_fuel(Seq::filter, 1);
        }
        let inside = match rec.position {
            Some(p) => {
                assert(near(rs[i as int].position.unwrap()));
                rec.attackable.is_some() && p.x as i32 - center.x as i32 <= radius as i32 && p.y as i32 - center.y as i32
                    <= radius as i32
            },
            None => false,
        };
        if inside {
            r.push(rec.entity);
        }
        proof {
            let keep = |q: LevelRecord| in_blast(q, center, radius);
            let f0 = rs.subrange(0, i as int).filter(keep);
            let f1 = rs.subrange(0, i + 1).filter(keep);
            if in_blast(rec, center, radius) {
                assert(f1 == f0.push(rec));
                assert(blast_targets(rs.subrange(0, i + 1), center, radius) =~= blast_targets(
                    rs.subrange(0, i as int),
                    center,
                    radius,
                ).push(rec.entity));
            } else {
                assert(f1 == f0);
            }
        }
        i = i + 1;
    }
    assert(rs.subrange(0, i as int) =~= rs);
    r
}

/// `i` is the index of the first record with both a player state and
/// health.
pub open spec fn is_first_player_fighter(rs: Seq<LevelRecord>, i: int) -> bool {
    &&& 0 <= i < rs.len()
    &&& rs[i].player is Some
    &&& rs[i].attackable is Some
    &&& forall|j: int| 0 <= j < i ==> !(#[trigger] rs[j].player is Some && rs[j].attackable is Some)
}

fn find_player_fighter(level: &Level) -> (r: Option<usize>)
    ensures
        r matches Some(i) ==> is_first_player_fighter(level.records@, i as int),
        r is None ==> forall|j: int|
            0 <= j < level.records@.len() ==> !(#[trigger] level.records@[j].player is Some
                && level.records@[j].attackable is Some),
{
    let mut i: usize = 0;
    while i < level.records.len()
        invariant
            i <= level.records@.len(),
            forall|j: int|
                0 <= j < i ==> !(#[trigger] level.records@[j].player is Some && level.records@[j].attackable is Some),
        decreases level.records@.len() - i,
    {
        if level.records[i].player.is_some() && level.records[i].attackable.is_some() {
            return Some(i);
        }
        i = i + 1;
    }
    None
}

/// The boss reward: the first player with health gains five maximum
/// health and, while it still has health, is healed to the new maximum.
pub open spec fn rewarded(a: Attackable) -> Attackable {
    let max = if a.max_health + 5 > u32::MAX {
        u32::MAX
    } else {
        (a.max_health + 5) as u32
    };
    let cur: u32 = if a.current_health > 0 {
        max
    } else {
        0
    };
    Attackable { max_health: max, current_health: cur, ..a }
}

/// The staircase left where a boss died.
pub open spec fn staircase_record(e: Entity, p: Position) -> LevelRecord {
    LevelRecord {
        name: Some(Name { text: "Staircase", concealed: false }),
        position: Some(p),
        sprite: Some(Sprite { id: "staircase", double_sized: false, in_foreground: true }),
        staircase: Some(Staircase {  }),
        ..bare(e)
    }
}

/// `e` holds a boss reward step: `l1` is `l0` with the first player
/// fighter rewarded (when there is one) and, when ids are left, a
/// staircase added on `p`.
pub open spec fn boss_reward_done(l0: Level, l1: Level, p: Position) -> bool {
    let rs = l0.records@;
    let rs1 = if exists|i: int| is_first_player_fighter(rs, i) {
        let i = choose|i: int| is_first_player_fighter(rs, i);
        rs.update(i, LevelRecord { attackable: Some(rewarded(rs[i].attackable.unwrap())), ..rs[i] })
    } else {
        rs
    };
    &&& l1.message_log == l0.message_log
    &&& l1.game_state == l0.game_state
    &&& l1.now_ms == l0.now_ms
    &&& if l0.next_id < u64::MAX {
        &&& l1.records@ == rs1.push(staircase_record(Entity { id: l0.next_id }, p))
        &&& l1.next_id == l0.next_id + 1
    } else {
        &&& l1.records@ == rs1
        &&& l1.next_id == l0.next_id
    }
}

fn reward_boss(level: &mut Level, p: Position)
    requires
        old(level).wf(),
        near(p),
    ensures
        final(level).wf(),
        final(level).message_log == old(level).message_log,
        boss_reward_done(*old(level), *final(level), p),
        alive_count(final(level).records@) == alive_count(old(level).records@),
{
    let ghost rs = level.records@;
    match find_player_fighter(level) {
        Some(i) => {
            let r = level.records[i];
            let a = r.attackable.unwrap();
            let max = if a.max_health <= u32::MAX - 5 {
                a.max_health + 5
            } else {
                u32::MAX
            };
            let cur = if a.current_health > 0 {
                max
            } else {
                0
            };
            let nr = LevelRecord { attackable: Some(Attackable { max_health: max, current_health: cur, ..a }), ..r };
            assert(r.position matches Some(q) ==> near(q));
            level.set_record(i, nr);
            proof {
                lemma_alive_update(rs, i as int, nr);
                let c = choose|c: int| is_first_player_fighter(rs, c);
                if c < i {
                    assert(!(rs[c].player is Some && rs[c].attackable is Some));
                } else if i < c {
                    assert(!(rs[i as int].player is Some && rs[i as int].attackable is Some));
                }
            }
        },
        None => {
            assert(!exists|i: int| is_first_player_fighter(rs, i));
        },
    }
    if level.next_id < u64::MAX {
        let ghost before = level.records@;
        level.spawn(
            LevelRecord {
                entity: Entity { id: 0 },
                name: Some(Name::new("Staircase", false)),
                position: Some(p),
                sprite: Some(Sprite::new("staircase")),
                attackable: None,
                player: None,
                staircase: Some(Staircase {  }),
                spawner: None,
                item: None,
                intangible: None,
                ai: None,
                counter: None,
            },
        );
        proof {
            lemma_alive_push(before, staircase_record(Entity { id: old(level).next_id }, p));
        }
    }
}

/// `l1` is `l0` with `amount` crystals added (up to the `u32` limit) to
/// the first player.
pub open spec fn crystals_collected(l0: Level, l1: Level, amount: u32) -> bool {
    let rs = l0.records@;
    &&& l1.next_id == l0.next_id
    &&& l1.message_log == l0.message_log
    &&& l1.game_state == l0.game_state
    &&& l1.now_ms == l0.now_ms
    &&& l1.records@ == match crate::level::player_index(rs) {
        Some(i) => {
            let p = rs[i].player.unwrap();
            rs.update(
                i,
                LevelRecord {
                    player: Some(crate::data::Player { crystals: if p.crystals + amount > u32::MAX {
                        u32::MAX
                    } else {
                        (p.crystals + amount) as u32
                    }, ..p }),
                    ..rs[i]
                },
            )
        },
        None => rs,
    }
}

fn collect_crystals(level: &mut Level, amount: u32)
    requires
        old(level).wf(),
    ensures
        final(level).wf(),
        crystals_collected(*old(level), *final(level), amount),
        alive_count(final(level).records@) == alive_count(old(level).records@),
{
    let ghost rs = level.records@;
    match level.find_player() {
        Some(i) => {
            let r = level.records[i];
            let p = r.player.unwrap();
            let crystals = if p.crystals <= u32::MAX - amount {
                p.crystals + amount
            } else {
                u32::MAX
            };
            let nr = LevelRecord { player: Some(crate::data::Player { crystals, ..p }), ..r };
            assert(r.position matches Some(q) ==> near(q));
            level.set_record(i, nr);
            proof {
                lemma_alive_update(rs, i as int, nr);
            }
        },
        None => {},
    }
}

/// Whether the death of an entity with this health needs its position: it
/// explodes, or it is a boss.
pub open spec fn needs_position(a: Attackable) -> bool {
    (a.explode_on_death.0 != 0 && a.explode_on_death.1 != 0) || a.is_boss
}

/// The name text of a record; empty when it has none.
pub open spec fn record_name(r: LevelRecord) -> Seq<char> {
    match r.name {
        Some(n) => n.text@,
        None => Seq::empty(),
    }
}

/// What follows the death of `target`, whose health was `t` and whose
/// record was `trec` before the fatal blow, from `hit` (just after the
/// blow): when it explodes, the blast is announced ("{name} exploded!")
/// and its chain of blows (left unsaid) leads to `blasted`, otherwise
/// `blasted` is `hit`; then a boss rewards the player (see
/// `boss_reward_done`; reaching `rewarded`), the player collects its
/// crystals (see `crystals_collected`; reaching `collected`), and it is
/// removed (reaching `l1`).
pub open spec fn death_via(
    hit: Level,
    blasted: Level,
    rewarded: Level,
    collected: Level,
    l1: Level,
    target: Entity,
    t: Attackable,
    trec: LevelRecord,
) -> bool {
    let n = hit.message_log@.len();
    &&& if t.explode_on_death.0 != 0 && t.explode_on_death.1 != 0 {
        &&& blasted.message_log@.len() > n
        &&& blasted.message_log@.subrange(0, n as int) =~= hit.message_log@
        &&& blasted.message_log@[n as int].text@ == exploded_text(record_name(trec))
        &&& blasted.message_log@[n as int].color == MessageColor::White
        &&& blasted.message_log@[n as int].display_length == MessageDisplayLength::Medium
        &&& blasted.message_log@[n as int].time_created == hit.now_ms
        &&& blasted.game_state == hit.game_state
        &&& blasted.now_ms == hit.now_ms
    } else {
        blasted == hit
    }
    &&& aftermath(blasted, rewarded, collected, l1, target, t, trec)
}

/// What follows a death once any blast is over, from `blasted` through
/// `rewarded` and `collected` to `l1` (see `death_via`).
pub open spec fn aftermath(
    blasted: Level,
    rewarded: Level,
    collected: Level,
    l1: Level,
    target: Entity,
    t: Attackable,
    trec: LevelRecord,
) -> bool {
    &&& if t.is_boss {
        boss_reward_done(blasted, rewarded, trec.position.unwrap())
    } else {
        rewarded == blasted
    }
    &&& crystals_collected(rewarded, collected, t.crystals_dropped_on_death)
    &&& l1.records@ == match index_of_spec(collected.records@, target) {
        Some(i) => collected.records@.remove(i),
        None => collected.records@,
    }
    &&& l1.next_id == collected.next_id
    &&& l1.message_log == collected.message_log
    &&& l1.game_state == collected.game_state
    &&& l1.now_ms == collected.now_ms
}

/// Rewards the player for a boss, collects the crystals of the dead
/// `target` (health `t`, record `trec`) and removes it (see `aftermath`).
fn bury(level: &mut Level, target: Entity, t: Attackable, trec: LevelRecord)
    requires
        old(level).wf(),
        t.is_boss ==> (trec.position matches Some(p) && near(p)),
    ensures
        final(level).wf(),
        exists|rewarded: Level, collected: Level|
            #[trigger] aftermath(*old(level), rewarded, collected, *final(level), target, t, trec),
        alive_count(final(level).records@) <= alive_count(old(level).records@),
        index_of_spec(final(level).records@, target) is None,
        final(level).game_state == old(level).game_state,
        final(level).now_ms == old(level).now_ms,
        final(level).message_log == old(level).message_log,
{
    let ghost blasted = *level;
    if t.is_boss {
        let center = trec.position.unwrap();
        reward_boss(level, center);
    }
    let ghost rewarded = *level;
    collect_crystals(level, t.crystals_dropped_on_death);
    let ghost collected = *level;
    let ghost before = level.records@;
    let removed = level.delete_entity(target);
    proof {
        if removed {
            lemma_alive_remove(before, index_of_spec(before, target).unwrap());
        }
    }
    assert(aftermath(blasted, rewarded, collected, *level, target, t, trec));
}

/// What `damage` did, from `l0` to `l1`, returning `r` (whether the target
/// died, and the damage dealt): the damage is `effective_damage`, nothing
/// at all happens to a target already at zero health, a hit that hastens
/// the spawners warns the player, a survivor is left as `hit_records` says,
/// and a target that died is gone, what follows its death being as
/// `death_via` says; the game state and clock stay and the log only grows.
pub open spec fn damage_done(
    l0: Level,
    l1: Level,
    base_damage: u32,
    is_melee: bool,
    attacker: Option<Entity>,
    target: Entity,
    r: (bool, u32),
) -> bool {
    let t = attackable_of(l0, target).unwrap();
    let a = match attacker {
        Some(e) => attackable_of(l0, e),
        None => None,
    };
    let d = effective_damage(base_damage, t, a);
    let i = index_of_spec(l0.records@, target).unwrap();
    let rs1 = hit_records(l0.records@, i, base_damage, is_melee, a);
    let n0 = l0.message_log@.len();
    let warned = l1.message_log@[n0 as int];
    &&& r.1 == if t.current_health == 0 {
        0
    } else {
        d
    }
    &&& r.0 == (t.current_health <= d)
    &&& t.current_health == 0 ==> l1 == l0
    &&& l1.game_state == l0.game_state
    &&& l1.now_ms == l0.now_ms
    &&& l1.message_log@.len() >= n0
    &&& l1.message_log@.subrange(0, n0 as int) =~= l0.message_log@
    &&& t.current_health > 0 && hastens(t) ==> {
        &&& l1.message_log@.len() > n0
        &&& warned.text@ == "The air around you feels more... dangerous..."@
        &&& warned.color == MessageColor::White
        &&& warned.display_length == MessageDisplayLength::Short
        &&& warned.time_created == l0.now_ms
    }
    &&& !r.0 ==> {
        &&& l1.records@ == rs1
        &&& l1.next_id == l0.next_id
        &&& l1.message_log@.len() == n0 + if hastens(t) {
            1int
        } else {
            0int
        }
    }
    &&& r.0 && t.current_health > 0 ==> index_of_spec(l1.records@, target) is None
    &&& r.0 && t.current_health > 0 ==> exists|hit: Level, blasted: Level, rewarded: Level, collected: Level|
        {
            &&& hit.records@ == rs1
            &&& hit.next_id == l0.next_id
            &&& hit.game_state == l0.game_state
            &&& hit.now_ms == l0.now_ms
            &&& hit.message_log@.len() == n0 + if hastens(t) {
                1int
            } else {
                0int
            }
            &&& hit.message_log@.subrange(0, n0 as int) =~= l0.message_log@
            &&& #[trigger] death_via(hit, blasted, rewarded, collected, l1, target, t, l0.records@[i])
        }
}

/// The attacker's health, if it has one.
pub open spec fn attacker_health(l: Level, attacker: Option<Entity>) -> Option<Attackable> {
    match attacker {
        Some(e) => attackable_of(l, e),
        None => None,
    }
}

/// What `damage` returns on `l0`: whether the target dies (its health is at
/// most the effective damage), and the damage dealt (none to a target
/// already at zero health).
pub open spec fn damage_return(l0: Level, base_damage: u32, attacker: Option<Entity>, target: Entity) -> (bool, u32) {
    let t = attackable_of(l0, target).unwrap();
    let d = effective_damage(base_damage, t, attacker_health(l0, attacker));
    (t.current_health <= d, if t.current_health == 0 {
        0
    } else {
        d
    })
}

/// The fatal blow sets off the target's blast: it had health left and
/// explodes on death.
pub open spec fn blows_up(l0: Level, base_damage: u32, attacker: Option<Entity>, target: Entity) -> bool {
    let t = attackable_of(l0, target).unwrap();
    &&& damage_return(l0, base_damage, attacker, target).0
    &&& t.current_health > 0
    &&& t.explode_on_death.0 != 0
    &&& t.explode_on_death.1 != 0
}

/// What `damage` did, from `l0` to `l1`, with blasts nested at most `n`
/// deep: `damage_done` with the returned value `damage_return`; and when
/// the target blows up (see `blows_up`), from the level just after the
/// announcement, whose table is the hit's, each entity of the blast (see
/// `blast_targets`) takes the blast's damage in turn (see `blast_chain`),
/// and what follows the blast is as `aftermath` says.
pub open spec fn full_damage(
    n: nat,
    l0: Level,
    l1: Level,
    base_damage: u32,
    is_melee: bool,
    attacker: Option<Entity>,
    target: Entity,
) -> bool
    decreases n, 0nat, 0nat,
{
    if n == 0 {
        false
    } else {
        let t = attackable_of(l0, target).unwrap();
        let i = index_of_spec(l0.records@, target).unwrap();
        let trec = l0.records@[i];
        let rs1 = hit_records(l0.records@, i, base_damage, is_melee, attacker_health(l0, attacker));
        let n0 = l0.message_log@.len();
        &&& damage_done(l0, l1, base_damage, is_melee, attacker, target, damage_return(l0, base_damage, attacker, target))
        &&& blows_up(l0, base_damage, attacker, target) ==> exists|levels: Seq<Level>, rewarded: Level, collected: Level|
            #![trigger aftermath(levels.last(), rewarded, collected, l1, target, t, trec)]
            {
                &&& levels.len() > 0
                &&& levels[0].records@ == rs1
                &&& levels[0].next_id == l0.next_id
                &&& levels[0].game_state == l0.game_state
                &&& levels[0].now_ms == l0.now_ms
                &&& levels[0].message_log@.subrange(0, n0 as int) == l0.message_log@
                &&& levels[0].message_log@.len() == n0 + (if hastens(t) {
                    1int
                } else {
                    0int
                }) + 1
                &&& levels[0].message_log@.last().text@ == exploded_text(record_name(trec))
                &&& blast_chain(
                    (n - 1) as nat,
                    levels,
                    blast_targets(rs1, trec.position.unwrap(), t.explode_on_death.1 as i16),
                    t.explode_on_death.0,
                )
                &&& aftermath(levels.last(), rewarded, collected, l1, target, t, trec)
            }
    }
}

/// The blows of a blast at `victims`, one after the other, lead through
/// `levels` (see `blast_hit`).
pub open spec fn blast_chain(n: nat, levels: Seq<Level>, victims: Seq<Entity>, blast_damage: u32) -> bool
    decreases n, 2nat, victims.len(),
{
    if victims.len() == 0 {
        levels.len() == 1
    } else {
        &&& levels.len() == victims.len() + 1
        &&& blast_chain(n, levels.drop_last(), victims.drop_last(), blast_damage)
        &&& blast_hit(n, levels[levels.len() - 2], levels.last(), victims.last(), blast_damage)
    }
}

/// One blow of a blast at `v`, from `l0` to `l1`: when `v` is still there
/// with health and a position, it takes the blast's damage as its own
/// attacker, not in melee (see `full_damage`); otherwise nothing.
pub open spec fn blast_hit(n: nat, l0: Level, l1: Level, v: Entity, blast_damage: u32) -> bool
    decreases n, 1nat, 0nat,
{
    match index_of_spec(l0.records@, v) {
        Some(i) => if l0.records@[i].attackable is Some && l0.records@[i].position is Some {
            full_damage(n, l0, l1, blast_damage, false, Some(v), v)
        } else {
            l1 == l0
        },
        None => l1 == l0,
    }
}

/// Allowing blasts to nest deeper keeps what `damage` did.
pub proof fn lemma_full_damage_deeper(
    n: nat,
    m: nat,
    l0: Level,
    l1: Level,
    base_damage: u32,
    is_melee: bool,
    attacker: Option<Entity>,
    target: Entity,
)
    requires
        n <= m,
        full_damage(n, l0, l1, base_damage, is_melee, attacker, target),
    ensures
        full_damage(m, l0, l1, base_damage, is_melee, attacker, target),
    decreases n, 0nat,
{
    let t = attackable_of(l0, target).unwrap();
    let i = index_of_spec(l0.records@, target).unwrap();
    let trec = l0.records@[i];
    let rs1 = hit_records(l0.records@, i, base_damage, is_melee, attacker_health(l0, attacker));
    let n0 = l0.message_log@.len();
    if blows_up(l0, base_damage, attacker, target) {
        let (levels, rewarded, collected) = choose|levels: Seq<Level>, rewarded: Level, collected: Level|
            #![trigger aftermath(levels.last(), rewarded, collected, l1, target, t, trec)]
            {
                &&& levels.len() > 0
                &&& levels[0].records@ == rs1
                &&& levels[0].next_id == l0.next_id
                &&& levels[0].game_state == l0.game_state
                &&& levels[0].now_ms == l0.now_ms
                &&& levels[0].message_log@.subrange(0, n0 as int) == l0.message_log@
                &&& levels[0].message_log@.len() == n0 + (if hastens(t) {
                    1int
                } else {
                    0int
                }) + 1
                &&& levels[0].message_log@.last().text@ == exploded_text(record_name(trec))
                &&& blast_chain(
                    (n - 1) as nat,
                    levels,
                    blast_targets(rs1, trec.position.unwrap(), t.explode_on_death.1 as i16),
                    t.explode_on_death.0,
                )
                &&& aftermath(levels.last(), rewarded, collected, l1, target, t, trec)
            };
        lemma_blast_chain_deeper(
            (n - 1) as nat,
            (m - 1) as nat,
            levels,
            blast_targets(rs1, trec.position.unwrap(), t.explode_on_death.1 as i16),
            t.explode_on_death.0,
        );
    }
}

/// Allowing blasts to nest deeper keeps what a blast did.
pub proof fn lemma_blast_chain_deeper(n: nat, m: nat, levels: Seq<Level>, victims: Seq<Entity>, blast_damage: u32)
    requires
        n <= m,
        blast_chain(n, levels, victims, blast_damage),
    ensures
        blast_chain(m, levels, victims, blast_damage),
    decreases n, 1nat, victims.len(),
{
    if victims.len() > 0 {
        lemma_blast_chain_deeper(n, m, levels.drop_last(), victims.drop_last(), blast_damage);
        let l0 = levels[levels.len() - 2];
        let v = victims.last();
        assert(blast_hit(n, l0, levels.last(), v, blast_damage));
        if let Some(i) = index_of_spec(l0.records@, v) {
            if l0.records@[i].attackable is Some && l0.records@[i].position is Some {
                lemma_full_damage_deeper(n, m, l0, levels.last(), blast_damage, false, Some(v), v);
            }
        }
        assert(blast_hit(m, l0, levels.last(), v, blast_damage));
    }
}

/// Deals `base_damage` to `target` (see `effective_damage`); `attacker` is who
/// hits, if anyone. A target already at zero health takes nothing. A hit
/// on a target at or below its spawn-hastening threshold hastens the
/// spawners (see `hastens`) and warns the player. When the hit leaves no
/// health, the target dies: a target that explodes announces it and deals
/// its blast damage to every entity in the blast (see `in_blast`), each as
/// its own attacker; a boss rewards the player and leaves a staircase (see
/// `boss_reward_done`); the player collects the target's crystals; and the
/// target is removed. Returns whether the target died, and the damage
/// dealt.
#[verifier::rlimit(60)]
pub fn damage(base_damage: u32, is_melee: bool, attacker: Option<Entity>, target: Entity, level: &mut Level) -> (r: (
    bool,
    u32,
))
    requires
        old(level).wf(),
        attackable_of(*old(level), target) is Some,
        needs_position(attackable_of(*old(level), target).unwrap()) ==> position_of(*old(level), target) is Some,
    ensures
        final(level).wf(),
        alive_count(final(level).records@) <= alive_count(old(level).records@),
        damage_done(*old(level), *final(level), base_damage, is_melee, attacker, target, r),
        r == damage_return(*old(level), base_damage, attacker, target),
        exists|n: nat| full_damage(n, *old(level), *final(level), base_damage, is_melee, attacker, target),
    decreases alive_count(old(level).records@),
{
    let ghost l0 = *level;
    let ti = level.index_of(target).unwrap();
    proof {
        lemma_index_unique(level.records@, level.next_id, target, ti as int);
    }
    let trec = level.records[ti];
    let t = trec.attackable.unwrap();
    if t.current_health == 0 {
        assert(full_damage(1, l0, *level, base_damage, is_melee, attacker, target));
        return (true, 0);
    }
    let mut dealt = base_damage;
    let mut a_opt: Option<Attackable> = None;
    match attacker {
        Some(e) => match level.index_of(e) {
            Some(ai) => {
                proof {
                    lemma_index_unique(level.records@, level.next_id, e, ai as int);
                }
                a_opt = level.records[ai].attackable;
            },
            None => {},
        },
        None => {},
    }
    let mut oozed = t.oozed_stacks;
    match a_opt {
        Some(a) => {
            if a.is_oozing {
                dealt = if base_damage <= u32::MAX - t.oozed_stacks {
                    base_damage + t.oozed_stacks
                } else {
                    u32::MAX
                };
                if is_melee && t.oozed_stacks < u32::MAX {
                    oozed = t.oozed_stacks + 1;
                }
            }
        },
        None => {},
    }
    let health = if t.current_health > dealt {
        t.current_health - dealt
    } else {
        0
    };
    let hit = Attackable { current_health: health, oozed_stacks: oozed, ..t };
    let nrec = LevelRecord { attackable: Some(hit), ..trec };
    assert(trec.position matches Some(q) ==> near(q));
    let ghost rs0 = level.records@;
    level.set_record(ti, nrec);
    proof {
        lemma_alive_update(rs0, ti as int, nrec);
    }
    let (threshold, turns) = t.lower_spawn_times;
    assert((threshold as u64) * (t.max_health as u64) <= u64::MAX) by (nonlinear_arith)
        requires
            threshold <= u32::MAX,
            t.max_health <= u32::MAX,
    ;
    let hasten = threshold != 0 && turns != 0 && (t.current_health as u64) * 1000 <= (threshold as u64) * (
    t.max_health as u64);
    if hasten {
        let ghost before = level.records@;
        hasten_spawners(level, turns);
        proof {
            assert forall|k: int| 0 <= k < before.len() implies alive(#[trigger] level.records@[k]) == alive(
                before[k],
            ) by {}
            lemma_alive_same(before, level.records@);
        }
        let now = level.now_ms;
        level.message_log.new_message(
            "The air around you feels more... dangerous...".to_string(),
            MessageColor::White,
            MessageDisplayLength::Short,
            now,
        );
    }
    proof {
        assert(level.records@ == hit_records(l0.records@, ti as int, base_damage, is_melee, a_opt));
    }
    let ghost log_hit = level.message_log@;
    let ghost hit_level = *level;
    assert(a_opt == attacker_health(l0, attacker));
    if health > 0 {
        assert(full_damage(1, l0, *level, base_damage, is_melee, attacker, target));
        return (false, dealt);
    }
    // The target died.
    let ghost entry = alive_count(l0.records@);
    assert(alive_count(level.records@) < entry);
    let (blast_damage, blast_radius) = t.explode_on_death;
    let ghost mut blast_levels: Seq<Level> = seq![];
    let ghost mut blast_depth: nat = 0;
    if blast_damage != 0 && blast_radius != 0 {
        let center = trec.position.unwrap();
        let name = match trec.name {
            Some(n) => n.text,
            None => "",
        };
        proof {
            reveal_strlit("");
        }
        assert(name@ == record_name(trec));
        let text = format_exploded(name);
        let now = level.now_ms;
        level.message_log.new_message(text, MessageColor::White, MessageDisplayLength::Medium, now);
        let ghost msgs = level.message_log@;
        let r16 = radius_as_i16(blast_radius);
        let targets = collect_blast_targets(level, center, r16);
        let ghost announced = *level;
        let ghost mut levels: Seq<Level> = seq![*level];
        let ghost mut depth: nat = 0;
        let mut k: usize = 0;
        while k < targets.len()
            invariant
                blast_chain(depth, levels, targets@.take(k as int), blast_damage),
                levels.last() == *level,
                levels[0] == announced,
                level.wf(),
                alive_count(level.records@) < entry,
                entry == alive_count(old(level).records@),
                k <= targets@.len(),
                level.game_state == l0.game_state,
                level.now_ms == l0.now_ms,
                level.message_log@.len() >= msgs.len(),
                level.message_log@.subrange(0, msgs.len() as int) == msgs,
                msgs.len() >= log_hit.len(),
                msgs.subrange(0, log_hit.len() as int) == log_hit,
                msgs.len() == log_hit.len() + 1,
                msgs.last().text@ == exploded_text(record_name(trec)),
                msgs.last().color == MessageColor::White,
                msgs.last().display_length == MessageDisplayLength::Medium,
                msgs.last().time_created == l0.now_ms,
            decreases targets@.len() - k,
        {
            let victim = targets[k];
            let ghost before_hit = *level;
            let ghost mut step_depth: nat = 0;
            match level.index_of(victim) {
                Some(vi) => {
                    proof {
                        lemma_index_unique(level.records@, level.next_id, victim, vi as int);
                    }
                    let v = level.records[vi];
                    if v.attackable.is_some() && v.position.is_some() {
                        let ghost before = level.message_log@;
                        self::damage(blast_damage, false, Some(victim), victim, level);
                        proof {
                            step_depth = choose|n: nat|
                                full_damage(n, before_hit, *level, blast_damage, false, Some(victim), victim);
                            assert(level.message_log@.subrange(0, msgs.len() as int) =~= before.subrange(
                                0,
                                msgs.len() as int,
                            ));
                        }
                    }
                },
                None => {},
            }
            proof {
                let new_depth: nat = if step_depth > depth {
                    step_depth
                } else {
                    depth
                };
                assert(blast_hit(step_depth, before_hit, *level, victim, blast_damage));
                if let Some(i) = index_of_spec(before_hit.records@, victim) {
                    if before_hit.records@[i].attackable is Some && before_hit.records@[i].position is Some {
                        lemma_full_damage_deeper(
                            step_depth,
                            new_depth,
                            before_hit,
                            *level,
                            blast_damage,
                            false,
                            Some(victim),
                            victim,
                        );
                    }
                }
                assert(blast_hit(new_depth, before_hit, *level, victim, blast_damage));
                lemma_blast_chain_deeper(depth, new_depth, levels, targets@.take(k as int), blast_damage);
                let old_levels = levels;
                levels = levels.push(*level);
                assert(levels.drop_last() =~= old_levels);
                assert(targets@.take(k + 1).drop_last() =~= targets@.take(k as int));
                assert(blast_chain(new_depth, levels, targets@.take(k + 1), blast_damage));
                depth = new_depth;
            }
            k = k + 1;
        }
        assert(targets@.take(targets@.len() as int) =~= targets@);
        assert(level.message_log@.subrange(0, log_hit.len() as int) =~= msgs.subrange(0, log_hit.len() as int));
        assert(level.message_log@[log_hit.len() as int] == msgs[log_hit.len() as int]);
        proof {
            blast_levels = levels;
            blast_depth = depth;
            assert(announced.message_log@.subrange(0, l0.message_log@.len() as int) =~= log_hit.subrange(
                0,
                l0.message_log@.len() as int,
            ));
        }
    }
    assert(level.message_log@.subrange(0, log_hit.len() as int) =~= log_hit);
    let ghost blasted = *level;
    assert(t.is_boss ==> (trec.position matches Some(p) && near(p)));
    bury(level, target, t, trec);
    proof {
        let (rewarded, collected) = choose|rewarded: Level, collected: Level|
            #[trigger] aftermath(blasted, rewarded, collected, *level, target, t, trec);
        assert(level.message_log@.subrange(0, l0.message_log@.len() as int) =~= log_hit.subrange(
            0,
            l0.message_log@.len() as int,
        ));
        if hasten {
            assert(level.message_log@[l0.message_log@.len() as int] == log_hit[l0.message_log@.len() as int]);
        }
        assert(death_via(hit_level, blasted, rewarded, collected, *level, target, t, trec));
        if blast_damage != 0 && blast_radius != 0 {
            assert(aftermath(blast_levels.last(), rewarded, collected, *level, target, t, trec));
            let rs1 = hit_records(l0.records@, ti as int, base_damage, is_melee, attacker_health(l0, attacker));
            let n0 = l0.message_log@.len();
            assert(blast_levels.len() > 0);
            assert(blast_levels[0].records@ == rs1);
            assert(blast_levels[0].next_id == l0.next_id);
            assert(blast_levels[0].game_state == l0.game_state);
            assert(blast_levels[0].now_ms == l0.now_ms);
            assert(blast_levels[0].message_log@.subrange(0, n0 as int) == l0.message_log@);
            assert(blast_levels[0].message_log@.len() == n0 + (if hastens(t) { 1int } else { 0int }) + 1);
            assert(blast_levels[0].message_log@.last().text@ == exploded_text(record_name(trec)));
            assert(blast_chain(blast_depth, blast_levels, blast_targets(rs1, trec.position.unwrap(), t.explode_on_death.1 as i16), t.explode_on_death.0));
            assert(full_damage(blast_depth + 1, l0, *level, base_damage, is_melee, attacker, target));
        } else {
            assert(full_damage(1, l0, *level, base_damage, is_melee, attacker, target));
        }
    }
    (true, dealt)
}

proof fn lemma_alive_same(a: Seq<LevelRecord>, b: Seq<LevelRecord>)
    requires
        a.len() == b.len(),
        forall|k: int| 0 <= k < a.len() ==> alive(#[trigger] b[k]) == alive(a[k]),
    ensures
        alive_count(a) == alive_count(b),
    decreases a.len(),
{
    if a.len() > 0 {
        lemma_alive_same(a.drop_last(), b.drop_last());
    }
}

/// The character of the decimal digit `d`.
pub open spec fn digit_char(d: int) -> char {
    (48 + d) as char
}

/// The decimal numeral of `n`, as `Display` writes an unsigned integer.
pub open spec fn decimal(n: nat) -> Seq<char>
    decreases n,
{
    if n < 10 {
        seq![digit_char(n as int)]
    } else {
        decimal(n / 10).push(digit_char((n % 10) as int))
    }
}

/// The report of an attack: "{attacker} attacked {target} for {damage}
/// damage".
pub open spec fn attack_report(attacker: Seq<char>, target: Seq<char>, damage: u32) -> Seq<char> {
    attacker + " attacked "@ + target + " for "@ + decimal(damage as nat) + " damage"@
}

/// `std::format!` with "{} attacked {} for {} damage": the two names and
/// the damage in decimal, as `attack_report` spells it out.
#[verifier::external_body]
fn format_attack_report(attacker: &str, target: &str, damage: u32) -> (s: String)
    ensures
        s@ == attack_report(attacker@, target@, damage),
{
    format!("{} attacked {} for {} damage", attacker, target, damage)
}

/// The king-move distance between two tiles.
pub open spec fn king_gap(a: Position, b: Position) -> int {
    if abs(a.x - b.x) < abs(a.y - b.y) {
        abs(a.y - b.y)
    } else {
        abs(a.x - b.x)
    }
}

/// The name text of `e`'s record; empty when it has none.
pub open spec fn name_text_of(l: Level, e: Entity) -> Seq<char> {
    match record_of(l.records@, e).unwrap().name {
        Some(n) => n.text@,
        None => Seq::empty(),
    }
}

/// `l1` is `l0` after `attacker` attacked `target` with `base_damage`
/// (see `damage`; a hit from the next tile is a melee hit), and `died` tells
/// whether the target died: the attack is reported with both names and the
/// damage dealt.
pub open spec fn attack_done(l0: Level, l1: Level, base_damage: u32, attacker: Entity, target: Entity, died: bool) -> bool {
    let t = attackable_of(l0, target).unwrap();
    let a = attackable_of(l0, attacker);
    let d = effective_damage(base_damage, t, a);
    let melee = king_gap(position_of(l0, attacker).unwrap(), position_of(l0, target).unwrap()) == 1;
    let n = l1.message_log@.len();
    let report = l1.message_log@[n - 1];
    &&& l1.wf()
    &&& l1.game_state == l0.game_state
    &&& l1.now_ms == l0.now_ms
    &&& died == (t.current_health <= d)
    &&& n > l0.message_log@.len()
    &&& l1.message_log@.subrange(0, l0.message_log@.len() as int) == l0.message_log@
    &&& report.text@ == attack_report(
        name_text_of(l0, attacker),
        name_text_of(l0, target),
        if t.current_health == 0 {
            0
        } else {
            d
        },
    )
    &&& report.color == MessageColor::White
    &&& report.display_length == MessageDisplayLength::Short
    &&& report.time_created == l0.now_ms
    &&& !died ==> l1.records@ == hit_records(
        l0.records@,
        index_of_spec(l0.records@, target).unwrap(),
        base_damage,
        melee,
        a,
    )
}

/// When `attacker` can attack `target` (see `can_attack`), deals
/// `base_damage` to it (see `damage`; a hit from the next tile is a melee
/// hit) and reports the attack with both names and the damage dealt, then
/// returns whether the target died. Otherwise nothing happens and the
/// attack is refused. Both must have a position, and the target must have
/// health.
pub fn try_attack(
    base_damage: u32,
    minimum_range: u32,
    maximum_range: u32,
    attacker: Entity,
    target: Entity,
    level: &mut Level,
) -> (r: Result<bool, ()>)
    requires
        old(level).wf(),
        position_of(*old(level), attacker) is Some,
        position_of(*old(level), target) is Some,
        attackable_of(*old(level), target) is Some,
    ensures
        final(level).wf(),
        r is Err <==> !attack_reaches(
            position_of(*old(level), attacker).unwrap(),
            position_of(*old(level), target).unwrap(),
            minimum_range,
            maximum_range,
        ),
        r is Err ==> *final(level) == *old(level),
        r matches Ok(died) ==> attack_done(*old(level), *final(level), base_damage, attacker, target, died),
{
    if !can_attack(minimum_range, maximum_range, attacker, target, level) {
        return Err(());
    }
    let ai = level.index_of(attacker).unwrap();
    let ti = level.index_of(target).unwrap();
    let a_rec = level.records[ai];
    let t_rec = level.records[ti];
    let attacker_name = match a_rec.name {
        Some(n) => n.text,
        None => "",
    };
    let target_name = match t_rec.name {
        Some(n) => n.text,
        None => "",
    };
    proof {
        reveal_strlit("");
    }
    let ap = a_rec.position.unwrap();
    let tp = t_rec.position.unwrap();
    assert(near(level.records@[ai as int].position.unwrap()));
    assert(near(level.records@[ti as int].position.unwrap()));
    let x_gap = gap_of(ap.x, tp.x);
    let y_gap = gap_of(ap.y, tp.y);
    let gap = if y_gap > x_gap {
        y_gap
    } else {
        x_gap
    };
    let (died, dealt) = damage(base_damage, gap == 1, Some(attacker), target, level);
    let text = format_attack_report(attacker_name, target_name, dealt);
    let now = level.now_ms;
    let ghost before = level.message_log@;
    level.message_log.new_message(text, MessageColor::White, MessageDisplayLength::Short, now);
    assert(level.message_log@.subrange(0, old(level).message_log@.len() as int) =~= before.subrange(
        0,
        old(level).message_log@.len() as int,
    ));
    Ok(died)
}

} // verus!
