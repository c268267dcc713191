//! The state of a game in progress and its turn loop: who acts next, what a
//! player's input does, how damage is dealt, what happens at the end of each
//! turn, and how a new floor is laid out and populated.

use crate::components::{CombatComponent, PositionComponent, SpriteComponent, StaircaseComponent};
use crate::generate_dungeon::{generate_dungeon, place_staircase, random_point_in, Room};
use crate::rng::{gen_range_u32, gen_ratio, pcg_from_seed};
use crate::tiles::TileSet;
use crate::world::{Entity, EntityRecord, World};
use rand_pcg::Pcg64;
use std::collections::VecDeque;
use vstd::prelude::*;

verus! {

/// Which statistic of the target softens a blow.
#[derive(Debug, Copy, Clone, Hash, PartialEq, Eq, Structural)]
pub enum DamageType {
    Untyped,
    Strength,
    Focus,
    Agility,
}

/// A blow: its target, its strength before defence, the statistic that
/// defends against it, and whether chance decides hit, critical hit and
/// spread.
#[derive(Debug, Copy, Clone, Hash, PartialEq, Eq, Structural)]
pub struct DamageInfo {
    pub target: Entity,
    pub damage_amount: u32,
    pub damage_type: DamageType,
    pub variance: bool,
}

/// What chance decided about a blow: a critical hit, a hit (when not
/// critical), and the extra damage of a normal hit (0 to 4).
#[derive(Debug, Copy, Clone, Hash, PartialEq, Eq, Structural)]
pub struct DamageRoll {
    pub critical: bool,
    pub hit: bool,
    pub spread: u32,
}

/// `v / 2` rounded half up.
pub open spec fn half_rounded(v: u32) -> int {
    (v + 1) / 2
}

/// How much of a blow the target's defence absorbs.
pub open spec fn damage_negated(amount: u32, t: DamageType, c: CombatComponent) -> int {
    match t {
        DamageType::Untyped => 0,
        DamageType::Strength => half_rounded(c.spec_strength()),
        DamageType::Focus => if c.magic_immune_buff {
            amount as int
        } else {
            half_rounded(c.spec_focus())
        },
        DamageType::Agility => half_rounded(c.spec_agility()),
    }
}

/// The blow after defence, never below zero.
pub open spec fn base_damage(amount: u32, t: DamageType, c: CombatComponent) -> int {
    let d = amount - damage_negated(amount, t, c);
    if d < 0 {
        0
    } else {
        d
    }
}

/// A critical hit deals half as much again, rounded half up, and at most
/// the largest `u32`.
pub open spec fn critical_damage(d: int) -> int {
    if (3 * d + 1) / 2 > u32::MAX {
        u32::MAX as int
    } else {
        (3 * d + 1) / 2
    }
}

/// Whether a blow lands: always without variance, otherwise on a critical
/// hit or a hit.
pub open spec fn blow_lands(variance: bool, roll: DamageRoll) -> bool {
    !variance || roll.critical || roll.hit
}

/// The damage a landing blow deals.
pub open spec fn damage_dealt(info: DamageInfo, c: CombatComponent, roll: DamageRoll) -> int {
    let d = base_damage(info.damage_amount, info.damage_type, c);
    if !info.variance {
        d
    } else if roll.critical {
        critical_damage(d)
    } else {
        d + roll.spread
    }
}

/// A roll chance can produce: no hit decided when critical, a spread
/// below 5 and only on a normal hit.
pub open spec fn roll_possible(variance: bool, roll: DamageRoll) -> bool {
    &&& roll.spread < 5
    &&& variance || (!roll.critical && !roll.hit && roll.spread == 0)
    &&& roll.critical ==> !roll.hit
    &&& roll.spread != 0 ==> roll.hit
}

/// Health after losing `d`, never below zero.
pub open spec fn health_after(health: u32, d: int) -> u32 {
    if d >= health {
        0
    } else {
        (health - d) as u32
    }
}

/// The blow after the target's defence.
pub fn damage_after_defense(amount: u32, t: DamageType, c: &CombatComponent) -> (r: u32)
    requires
        crate::world::combat_ok(*c),
    ensures
        r == base_damage(amount, t, *c),
{
    let negated: u32 = match t {
        DamageType::Untyped => 0,
        DamageType::Strength => (c.get_strength() + 1) / 2,
        DamageType::Focus => if c.magic_immune_buff {
            amount
        } else {
            (c.get_focus() + 1) / 2
        },
        DamageType::Agility => (c.get_agility() + 1) / 2,
    };
    if amount >= negated {
        amount - negated
    } else {
        0
    }
}

/// The damage a landing blow deals, given what chance decided.
pub fn compute_damage(info: DamageInfo, c: &CombatComponent, roll: DamageRoll) -> (r: u32)
    requires
        crate::world::combat_ok(*c),
        info.variance && !roll.critical ==> base_damage(info.damage_amount, info.damage_type, *c) + roll.spread
            <= u32::MAX,
    ensures
        r == damage_dealt(info, *c, roll),
{
    let d = damage_after_defense(info.damage_amount, info.damage_type, c);
    if !info.variance {
        d
    } else if roll.critical {
        let x: u64 = (3 * (d as u64) + 1) / 2;
        if x > 4294967295 {
            4294967295
        } else {
            x as u32
        }
    } else {
        d + roll.spread
    }
}

/// Draws what chance decides about a blow: a critical hit with probability
/// luck/200; otherwise a hit with probability (100 - luck)/100; for a
/// normal hit, a spread from 0 to 4. Nothing is drawn without variance.
pub fn roll_damage(rng: &mut Pcg64, variance: bool, luck: u32) -> (roll: DamageRoll)
    requires
        luck <= 100,
    ensures
        roll_possible(variance, roll),
        variance && luck == 0 ==> !roll.critical && roll.hit,
        variance && luck == 100 ==> !roll.hit,
        !variance ==> *final(rng) == *old(rng),
{
    let mut roll = DamageRoll { critical: false, hit: false, spread: 0 };
    if variance {
        roll.critical = gen_ratio(rng, luck, 200);
        if !roll.critical {
            roll.hit = gen_ratio(rng, 100 - luck, 100);
            if roll.hit {
                roll.spread = gen_range_u32(rng, 0, 5);
            }
        }
    }
    roll
}


/// A short effect the renderer shows before the game goes on. Positions are
/// in view coordinates (the player's tile is (7, 7), `y` grows downwards).
#[derive(Debug, Copy, Clone, PartialEq, Eq)]
pub enum Animation {
    Damage {
        damaged_entity: Entity,
        entity_position: PositionComponent,
        entity_sprite: &'static str,
        damage_dealt: u32,
        critical_hit: bool,
    },
    Miss { entity_position: PositionComponent },
    NextFloor { floor_number: u32 },
}

/// A game in progress.
pub struct Game {
    pub ecs: World,
    pub actor_queue: VecDeque<Entity>,
    pub player_entity: Entity,
    pub player_facing_direction: PositionComponent,
    pub player_inventory: [Option<Entity>; 16],
    pub player_turns_until_passive_healing: u32,
    pub rooms: Vec<Room>,
    pub floor_positions: Vec<PositionComponent>,
    pub floor_number: u32,
    pub rng: Pcg64,
    pub dungeon_generation_rng: Pcg64,
    pub animation_queue: VecDeque<Animation>,
}

/// A facing direction: one of the eight unit steps.
pub open spec fn facing_ok(d: PositionComponent) -> bool {
    &&& -1 <= d.x <= 1
    &&& -1 <= d.y <= 1
    &&& !(d.x == 0 && d.y == 0)
}

/// Two games have the same setting: the player's handle, facing, inventory
/// and healing countdown, the order of turns, the floor number, its rooms and
/// floor tiles are equal.
pub open spec fn same_setting(a: Game, b: Game) -> bool {
    &&& b.player_entity == a.player_entity
    &&& b.actor_queue == a.actor_queue
    &&& b.player_inventory == a.player_inventory
    &&& b.rooms@ == a.rooms@
    &&& b.floor_positions@ == a.floor_positions@
    &&& b.floor_number == a.floor_number
    &&& b.player_turns_until_passive_healing == a.player_turns_until_passive_healing
    &&& b.player_facing_direction == a.player_facing_direction
}

/// The combat component of `e`, if it has one.
pub open spec fn combat_of(w: World, e: Entity) -> Option<CombatComponent> {
    match w.get_spec(e) {
        Some(r) => r.combat,
        None => None,
    }
}

/// The record of `e` with its combat component replaced by `c`.
pub open spec fn with_combat(w: World, e: Entity, c: CombatComponent) -> Seq<EntityRecord> {
    let i = crate::world::find_index(w.records(), e).unwrap();
    w.records().update(i, EntityRecord { combat: Some(c), ..w.records()[i] })
}

/// A timed effect one turn later: one turn fewer, and no amount once no
/// turns are left.
pub open spec fn tick(e: (u32, u32)) -> (u32, u32) {
    let turns: u32 = if e.1 == 0 {
        0
    } else {
        (e.1 - 1) as u32
    };
    (if turns == 0 {
        0
    } else {
        e.0
    }, turns)
}

/// Every buff and debuff one turn later.
pub open spec fn ticked(c: CombatComponent) -> CombatComponent {
    CombatComponent {
        strength_buff: tick(c.strength_buff),
        focus_buff: tick(c.focus_buff),
        agility_buff: tick(c.agility_buff),
        luck_buff: tick(c.luck_buff),
        strength_debuff: tick(c.strength_debuff),
        focus_debuff: tick(c.focus_debuff),
        agility_debuff: tick(c.agility_debuff),
        luck_debuff: tick(c.luck_debuff),
        burn_debuff: tick(c.burn_debuff),
        ..c
    }
}

/// One turn later, every buff and debuff has one turn fewer; on its last
/// turn (or with none left) it is gone altogether, amount and turns.
pub proof fn lemma_ticked_fields(c: CombatComponent)
    ensures
        ticked(c).strength_buff == if c.strength_buff.1 <= 1 {
            (0u32, 0u32)
        } else {
            (c.strength_buff.0, (c.strength_buff.1 - 1) as u32)
        },
        ticked(c).focus_buff == if c.focus_buff.1 <= 1 {
            (0u32, 0u32)
        } else {
            (c.focus_buff.0, (c.focus_buff.1 - 1) as u32)
        },
        ticked(c).agility_buff == if c.agility_buff.1 <= 1 {
            (0u32, 0u32)
        } else {
            (c.agility_buff.0, (c.agility_buff.1 - 1) as u32)
        },
        ticked(c).luck_buff == if c.luck_buff.1 <= 1 {
            (0u32, 0u32)
        } else {
            (c.luck_buff.0, (c.luck_buff.1 - 1) as u32)
        },
        ticked(c).strength_debuff == if c.strength_debuff.1 <= 1 {
            (0u32, 0u32)
        } else {
            (c.strength_debuff.0, (c.strength_debuff.1 - 1) as u32)
        },
        ticked(c).focus_debuff == if c.focus_debuff.1 <= 1 {
            (0u32, 0u32)
        } else {
            (c.focus_debuff.0, (c.focus_debuff.1 - 1) as u32)
        },
        ticked(c).agility_debuff == if c.agility_debuff.1 <= 1 {
            (0u32, 0u32)
        } else {
            (c.agility_debuff.0, (c.agility_debuff.1 - 1) as u32)
        },
        ticked(c).luck_debuff == if c.luck_debuff.1 <= 1 {
            (0u32, 0u32)
        } else {
            (c.luck_debuff.0, (c.luck_debuff.1 - 1) as u32)
        },
        ticked(c).burn_debuff == if c.burn_debuff.1 <= 1 {
            (0u32, 0u32)
        } else {
            (c.burn_debuff.0, (c.burn_debuff.1 - 1) as u32)
        },
        ticked(c).current_health == c.current_health,
        ticked(c).strength == c.strength,
        ticked(c).agility == c.agility,
        ticked(c).explode_on_death_buff == c.explode_on_death_buff,
        ticked(c).magic_immune_buff == c.magic_immune_buff,
{
}

impl Game {
    /// The table is well formed, the player exists and can fight, the
    /// passive-healing countdown is between 1 and 10, the player faces one of
    /// the eight directions, and the rooms are as placement guarantees.
    pub open spec fn wf(&self) -> bool {
        &&& self.wf_core()
        &&& crate::generate_dungeon::valid_room_layout(self.rooms@)
    }

    /// `wf` without the condition on rooms (which a game has only once its
    /// first floor is laid out).
    pub open spec fn wf_core(&self) -> bool {
        &&& self.ecs.wf()
        &&& combat_of(self.ecs, self.player_entity) is Some
        &&& 1 <= self.player_turns_until_passive_healing <= 10
        &&& facing_ok(self.player_facing_direction)
    }
}

fn record_with_combat(r: EntityRecord, c: CombatComponent) -> (n: EntityRecord)
    ensures
        n == (EntityRecord { combat: Some(c), ..r }),
{
    EntityRecord { combat: Some(c), ..r }
}

fn tick_exec(e: (u32, u32)) -> (r: (u32, u32))
    ensures
        r == tick(e),
{
    let turns = if e.1 == 0 {
        0
    } else {
        e.1 - 1
    };
    (if turns == 0 {
        0
    } else {
        e.0
    }, turns)
}

/// View coordinates of `target` seen from `player`, if on screen (both in 0..15).
fn view_position(player: PositionComponent, target: PositionComponent) -> (r: Option<
    PositionComponent,
>)
    requires
        crate::world::in_bounds(player),
        crate::world::in_bounds(target),
    ensures
        r matches Some(v) ==> v == (PositionComponent {
            x: (target.x - player.x + 7) as i32,
            y: (player.y - target.y + 7) as i32,
        }) && 0 <= v.x < 15 && 0 <= v.y < 15,
        r is None <==> !(0 <= target.x - player.x + 7 < 15 && 0 <= player.y - target.y + 7 < 15),
{
    let x: i64 = target.x as i64 - player.x as i64 + 7;
    let y: i64 = player.y as i64 - target.y as i64 + 7;
    if 0 <= x && x < 15 && 0 <= y && y < 15 {
        Some(PositionComponent { x: x as i32, y: y as i32 })
    } else {
        None
    }
}

/// What happens to the target of a blow, given what chance decided: nothing
/// when it misses; otherwise it loses the damage dealt and, when its health
/// reaches zero and it is not the player, it is removed.
pub open spec fn damage_outcome(before: Game, after: Game, info: DamageInfo, roll: DamageRoll) -> bool {
    let c = combat_of(before.ecs, info.target).unwrap();
    let health = health_after(c.current_health, damage_dealt(info, c, roll));
    if !blow_lands(info.variance, roll) {
        after.ecs.records() == before.ecs.records()
    } else if health == 0 && info.target != before.player_entity {
        !after.ecs.contains_spec(info.target)
    } else {
        after.ecs.records() == with_combat(
            before.ecs,
            info.target,
            CombatComponent { current_health: health, ..c },
        )
    }
}

/// Whether record `r` is caught in a blast of `radius` around `center`: it
/// can fight and stands within `radius` king moves of it.
pub open spec fn caught_in_blast(r: EntityRecord, center: PositionComponent, radius: u32) -> bool {
    r.combat is Some && crate::components::chebyshev(center, r.position) <= radius
}

/// The entities caught in a blast, in table order.
pub open spec fn blast_victims(rs: Seq<EntityRecord>, center: PositionComponent, radius: u32) -> Seq<Entity> {
    rs.filter(|r: EntityRecord| caught_in_blast(r, center, radius)).map_values(|r: EntityRecord| r.entity)
}

/// The animation a blow at `info.target` queues, given what chance decided:
/// when the target's tile is on screen (see `view_position`), a damage
/// animation for a blow that lands and a miss otherwise; nothing when it
/// is off screen.
pub open spec fn blow_animation(g: Game, info: DamageInfo, roll: DamageRoll) -> Seq<Animation> {
    let pp = g.ecs.get_spec(g.player_entity).unwrap().position;
    let r = g.ecs.get_spec(info.target).unwrap();
    let tp = r.position;
    let v = PositionComponent { x: (tp.x - pp.x + 7) as i32, y: (pp.y - tp.y + 7) as i32 };
    if 0 <= tp.x - pp.x + 7 < 15 && 0 <= pp.y - tp.y + 7 < 15 {
        if blow_lands(info.variance, roll) {
            seq![
                Animation::Damage {
                    damaged_entity: info.target,
                    entity_position: v,
                    entity_sprite: r.sprite.id,
                    damage_dealt: damage_dealt(info, r.combat.unwrap(), roll) as u32,
                    critical_hit: roll.critical,
                },
            ]
        } else {
            seq![Animation::Miss { entity_position: v }]
        }
    } else {
        Seq::empty()
    }
}

/// The table just after a blow, given what chance decided: unchanged when
/// it misses; otherwise the target loses the damage dealt and, at zero
/// health, its record leaves the table unless it is the player.
pub open spec fn blow_records(g: Game, info: DamageInfo, roll: DamageRoll) -> Seq<EntityRecord> {
    let c = combat_of(g.ecs, info.target).unwrap();
    let health = health_after(c.current_health, damage_dealt(info, c, roll));
    if !blow_lands(info.variance, roll) {
        g.ecs.records()
    } else if health == 0 && info.target != g.player_entity {
        g.ecs.records().filter(|r: EntityRecord| r.entity != info.target)
    } else {
        with_combat(g.ecs, info.target, CombatComponent { current_health: health, ..c })
    }
}

/// `g1` is `g0` just after a blow, before any blast: the table is
/// `blow_records`, the blow's animation is queued (see `blow_animation`),
/// the game's generator moved only by the draws of a blow with variance,
/// and nothing else changed.
pub open spec fn struck(g0: Game, g1: Game, info: DamageInfo, roll: DamageRoll) -> bool {
    &&& g1 == (Game { ecs: g1.ecs, rng: g1.rng, animation_queue: g1.animation_queue, ..g0 })
    &&& !info.variance ==> g1.rng == g0.rng
    &&& g1.ecs.records() == blow_records(g0, info, roll)
    &&& g1.ecs.next_id() == g0.ecs.next_id()
    &&& g1.animation_queue@ == g0.animation_queue@ + blow_animation(g0, info, roll)
}

/// The blow kills a target other than the player that carries an
/// explode-on-death buff, which then goes off.
pub open spec fn sets_off_blast(g: Game, info: DamageInfo, roll: DamageRoll) -> bool {
    let c = combat_of(g.ecs, info.target).unwrap();
    &&& blow_lands(info.variance, roll)
    &&& health_after(c.current_health, damage_dealt(info, c, roll)) == 0
    &&& info.target != g.player_entity
    &&& c.explode_on_death_buff.1 != 0
}

/// What a blow did, from `g0` to `g1`, with blasts nested at most `n` deep:
/// for some roll chance can produce, the blow itself (see `struck`) and,
/// when it sets off a blast (see `sets_off_blast`), the buff's damage
/// dealt to every entity caught around the target's tile, in table order
/// (see `blast_victims`, `blast_after`).
pub open spec fn blow_dealt(n: nat, g0: Game, g1: Game, info: DamageInfo) -> bool
    decreases n, 0nat, 0nat,
{
    if n == 0 {
        false
    } else {
        exists|roll: DamageRoll, mid: Game|
            #![trigger struck(g0, mid, info, roll)]
            roll_possible(info.variance, roll) && struck(g0, mid, info, roll) && if sets_off_blast(g0, info, roll) {
                let c = combat_of(g0.ecs, info.target).unwrap();
                let center = g0.ecs.get_spec(info.target).unwrap().position;
                blast_after(
                    (n - 1) as nat,
                    mid,
                    g1,
                    blast_victims(mid.ecs.records(), center, c.explode_on_death_buff.1),
                    c.explode_on_death_buff.0,
                )
            } else {
                g1 == mid
            }
    }
}

/// The blows of a blast at `victims`, one after the other, lead from `g0`
/// to `g1` (see `blasted_through`).
pub open spec fn blast_after(n: nat, g0: Game, g1: Game, victims: Seq<Entity>, damage: u32) -> bool
    decreases n, 3nat, 0nat,
{
    exists|games: Seq<Game>|
        #![trigger games[0]]
        blasted_through(n, games, victims, damage) && games[0] == g0 && games.last() == g1
}

/// One blow of a blast at `e`, from `g0` to `g1`: while `e` can fight, the
/// blast's damage with no variance (see `blow_dealt`); otherwise nothing.
pub open spec fn blast_step(n: nat, g0: Game, g1: Game, e: Entity, damage: u32) -> bool
    decreases n, 1nat, 0nat,
{
    if combat_of(g0.ecs, e) is Some {
        blow_dealt(
            n,
            g0,
            g1,
            DamageInfo { target: e, damage_amount: damage, damage_type: DamageType::Untyped, variance: false },
        )
    } else {
        g1 == g0
    }
}

/// The blows at `victims`, one after the other, lead through `games`: each
/// from one game to the next (see `blast_step`).
pub open spec fn blasted_through(n: nat, games: Seq<Game>, victims: Seq<Entity>, damage: u32) -> bool
    decreases n, 2nat, victims.len(),
{
    if victims.len() == 0 {
        games.len() == 1
    } else {
        &&& games.len() == victims.len() + 1
        &&& blasted_through(n, games.drop_last(), victims.drop_last(), damage)
        &&& blast_step(n, games[games.len() - 2], games.last(), victims.last(), damage)
    }
}

/// `blasted_through` blow by blow.
pub proof fn lemma_blasted_through(n: nat, games: Seq<Game>, victims: Seq<Entity>, damage: u32)
    ensures
        blasted_through(n, games, victims, damage) <==> (games.len() == victims.len() + 1 && forall|j: int|
            0 <= j < victims.len() ==> #[trigger] blast_step(n, games[j], games[j + 1], victims[j], damage)),
    decreases victims.len(),
{
    if victims.len() > 0 && games.len() == victims.len() + 1 {
        let g2 = games.drop_last();
        let v2 = victims.drop_last();
        lemma_blasted_through(n, g2, v2, damage);
        assert forall|j: int| 0 <= j < v2.len() implies (#[trigger] blast_step(n, g2[j], g2[j + 1], v2[j], damage)
            == blast_step(n, games[j], games[j + 1], victims[j], damage)) by {
            assert(g2[j] == games[j] && g2[j + 1] == games[j + 1] && v2[j] == victims[j]);
        }
        let k = victims.len() - 1;
        assert(games[games.len() - 2] == games[k] && games.last() == games[k + 1] && victims.last() == victims[k]);
        assert(blast_step(n, games[k], games[k + 1], victims[k], damage) == blast_step(
            n,
            games[games.len() - 2],
            games.last(),
            victims.last(),
            damage,
        ));
        if blasted_through(n, games, victims, damage) {
            assert forall|j: int| 0 <= j < victims.len() implies #[trigger] blast_step(
                n,
                games[j],
                games[j + 1],
                victims[j],
                damage,
            ) by {
                if j < k {
                    assert(blast_step(n, g2[j], g2[j + 1], v2[j], damage));
                }
            }
        }
        if forall|j: int|
            0 <= j < victims.len() ==> #[trigger] blast_step(n, games[j], games[j + 1], victims[j], damage) {
            assert forall|j: int| 0 <= j < v2.len() implies #[trigger] blast_step(n, g2[j], g2[j + 1], v2[j], damage) by {
                assert(blast_step(n, games[j], games[j + 1], victims[j], damage));
            }
            assert(blast_step(n, games[k], games[k + 1], victims[k], damage));
        }
    }
}

/// Allowing blasts to nest deeper keeps what a blow did.
pub proof fn lemma_dealt_deeper(n: nat, m: nat, g0: Game, g1: Game, info: DamageInfo)
    requires
        n <= m,
        blow_dealt(n, g0, g1, info),
    ensures
        blow_dealt(m, g0, g1, info),
    decreases n, 0nat,
{
    let (roll, mid) = choose|roll: DamageRoll, mid: Game|
        #![trigger struck(g0, mid, info, roll)]
        roll_possible(info.variance, roll) && struck(g0, mid, info, roll) && if sets_off_blast(g0, info, roll) {
            let c = combat_of(g0.ecs, info.target).unwrap();
            let center = g0.ecs.get_spec(info.target).unwrap().position;
            blast_after(
                (n - 1) as nat,
                mid,
                g1,
                blast_victims(mid.ecs.records(), center, c.explode_on_death_buff.1),
                c.explode_on_death_buff.0,
            )
        } else {
            g1 == mid
        };
    if sets_off_blast(g0, info, roll) {
        let c = combat_of(g0.ecs, info.target).unwrap();
        let center = g0.ecs.get_spec(info.target).unwrap().position;
        let victims = blast_victims(mid.ecs.records(), center, c.explode_on_death_buff.1);
        let games = choose|games: Seq<Game>|
            #![trigger games[0]]
            blasted_through((n - 1) as nat, games, victims, c.explode_on_death_buff.0) && games[0] == mid
                && games.last() == g1;
        lemma_blasted_deeper((n - 1) as nat, (m - 1) as nat, games, victims, c.explode_on_death_buff.0);
        assert(blast_after((m - 1) as nat, mid, g1, victims, c.explode_on_death_buff.0));
    }
}

/// Allowing blasts to nest deeper keeps what a blast did.
pub proof fn lemma_blasted_deeper(n: nat, m: nat, games: Seq<Game>, victims: Seq<Entity>, damage: u32)
    requires
        n <= m,
        blasted_through(n, games, victims, damage),
    ensures
        blasted_through(m, games, victims, damage),
    decreases n, 1nat,
{
    lemma_blasted_through(n, games, victims, damage);
    lemma_blasted_through(m, games, victims, damage);
    assert forall|j: int| 0 <= j < victims.len() implies #[trigger] blast_step(
        m,
        games[j],
        games[j + 1],
        victims[j],
        damage,
    ) by {
        assert(blast_step(n, games[j], games[j + 1], victims[j], damage));
        if combat_of(games[j].ecs, victims[j]) is Some {
            lemma_dealt_deeper(
                n,
                m,
                games[j],
                games[j + 1],
                DamageInfo { target: victims[j], damage_amount: damage, damage_type: DamageType::Untyped, variance: false },
            );
        }
    }
}

impl Game {
    /// Deals a blow. With variance, chance decides a critical hit (luck/200;
    /// half as much damage again), else a hit ((100 - luck)/100) and a
    /// spread of 0 to 4 extra damage; the target's luck is used. A target
    /// that is not the player is removed when its health reaches zero, and
    /// if it carried an explode-on-death buff every entity with combat
    /// within the buff's radius (king moves) of it takes the buff's damage.
    /// Landing blows and misses on screen queue an animation.
    pub fn damage_entity(&mut self, info: DamageInfo)
        requires
            old(self).wf(),
            combat_of(old(self).ecs, info.target) is Some,
            info.variance ==> base_damage(
                info.damage_amount,
                info.damage_type,
                combat_of(old(self).ecs, info.target).unwrap(),
            ) + 5 <= u32::MAX,
        ensures
            final(self).wf(),
            final(self).player_entity == old(self).player_entity,
            final(self).ecs.records().len() <= old(self).ecs.records().len(),
            final(self).rooms@ == old(self).rooms@,
            final(self).floor_positions@ == old(self).floor_positions@,
            final(self).floor_number == old(self).floor_number,
            final(self).player_turns_until_passive_healing == old(self).player_turns_until_passive_healing,
            final(self).player_facing_direction == old(self).player_facing_direction,
            final(self).actor_queue == old(self).actor_queue,
            final(self).player_inventory == old(self).player_inventory,
            forall|e: Entity| #[trigger] final(self).ecs.contains_spec(e) ==> old(self).ecs.contains_spec(e),
            exists|roll: DamageRoll|
                roll_possible(info.variance, roll) && damage_outcome(*old(self), *final(self), info, roll),
            exists|n: nat| blow_dealt(n, *old(self), *final(self), info),
        decreases old(self).ecs.records().len(), 0nat,
    {
        let ghost before = *self;
        let idx = match self.ecs.index_of(info.target) {
            Some(i) => i,
            None => {
                return;
            },
        };
        proof {
            crate::world::lemma_find_index(self.ecs.records(), info.target);
        }
        let rec = self.ecs.record_at(idx);
        assert(crate::world::record_ok(self.ecs.records()[idx as int]));
        let c = match rec.combat {
            Some(c) => c,
            None => {
                return;
            },
        };
        let luck = c.get_luck();
        let roll = roll_damage(&mut self.rng, info.variance, luck);
        let player_rec = self.ecs.get(self.player_entity).unwrap();
        proof {
            crate::world::lemma_find_index(self.ecs.records(), self.player_entity);
            let pi = crate::world::find_index(self.ecs.records(), self.player_entity).unwrap();
            assert(crate::world::record_ok(self.ecs.records()[pi]));
        }
        if roll.critical || roll.hit || !info.variance {
            let dealt = compute_damage(info, &c, roll);
            let new_health = if dealt >= c.current_health {
                0
            } else {
                c.current_health - dealt
            };
            let new_c = CombatComponent { current_health: new_health, ..c };
            let dies = new_health == 0 && info.target != self.player_entity;
            if !dies {
                self.ecs.set_record(idx, record_with_combat(rec, new_c));
            }
            proof {
                crate::world::lemma_find_index(self.ecs.records(), info.target);
                crate::world::lemma_find_index(before.ecs.records(), info.target);
                crate::world::lemma_find_index(self.ecs.records(), self.player_entity);
            }
            match view_position(player_rec.position, rec.position) {
                Some(v) => {
                    self.animation_queue.push_back(
                        Animation::Damage {
                            damaged_entity: info.target,
                            entity_position: v,
                            entity_sprite: rec.sprite.id,
                            damage_dealt: dealt,
                            critical_hit: roll.critical,
                        },
                    );
                },
                None => {},
            }
            proof {
                assert(self.animation_queue@ =~= before.animation_queue@ + blow_animation(before, info, roll));
            }
            if dies {
                let explosion = c.explode_on_death_buff;
                let center = rec.position;
                self.ecs.despawn(info.target);
                let ghost mid = *self;
                proof {
                    assert(mid == (Game { ecs: mid.ecs, rng: mid.rng, animation_queue: mid.animation_queue, ..before }));
                    assert(!info.variance ==> mid.rng == before.rng);
                    assert(mid.ecs.records() == blow_records(before, info, roll));
                    assert(mid.ecs.next_id() == before.ecs.next_id());
                    assert(mid.animation_queue@ == before.animation_queue@ + blow_animation(before, info, roll));
                    assert(struck(before, mid, info, roll));
                }
                if explosion.1 != 0 {
                    self.explode(center, explosion.0, explosion.1);
                    proof {
                        let (n, games) = choose|n: nat, games: Seq<Game>|
                            #[trigger] blasted_through(n, games, blast_victims(mid.ecs.records(), center, explosion.1), explosion.0)
                                && games[0] == mid && games.last() == *self;
                        assert(sets_off_blast(before, info, roll));
                        assert(blast_after(n, mid, *self, blast_victims(mid.ecs.records(), center, explosion.1), explosion.0));
                        assert(blow_dealt(n + 1, before, *self, info));
                    }
                } else {
                    assert(blow_dealt(1, before, *self, info));
                }
                proof {
                    assert(damage_outcome(before, *self, info, roll));
                }
            } else {
                assert(*self == (Game { ecs: self.ecs, rng: self.rng, animation_queue: self.animation_queue, ..before }));
                assert(!info.variance ==> self.rng == before.rng);
                assert(self.ecs.records() == blow_records(before, info, roll));
                assert(self.ecs.next_id() == before.ecs.next_id());
                assert(self.animation_queue@ == before.animation_queue@ + blow_animation(before, info, roll));
                assert(struck(before, *self, info, roll));
                assert(blow_dealt(1, before, *self, info));
                assert(damage_outcome(before, *self, info, roll));
            }
        } else {
            match view_position(player_rec.position, rec.position) {
                Some(v) => {
                    self.animation_queue.push_back(Animation::Miss { entity_position: v });
                },
                None => {},
            }
            assert(self.animation_queue@ =~= before.animation_queue@ + blow_animation(before, info, roll));
            assert(struck(before, *self, info, roll));
            assert(blow_dealt(1, before, *self, info));
            assert(damage_outcome(before, *self, info, roll));
        }
    }

    /// Deals `damage` to every entity with combat within `radius` king moves
    /// of `center`, in table order.
    fn explode(&mut self, center: PositionComponent, damage: u32, radius: u32)
        requires
            old(self).wf(),
            crate::world::in_bounds(center),
        ensures
            final(self).wf(),
            final(self).player_entity == old(self).player_entity,
            final(self).ecs.records().len() <= old(self).ecs.records().len(),
            final(self).rooms@ == old(self).rooms@,
            final(self).floor_positions@ == old(self).floor_positions@,
            final(self).floor_number == old(self).floor_number,
            final(self).player_turns_until_passive_healing == old(self).player_turns_until_passive_healing,
            final(self).player_facing_direction == old(self).player_facing_direction,
            final(self).actor_queue == old(self).actor_queue,
            final(self).player_inventory == old(self).player_inventory,
            forall|e: Entity| #[trigger] final(self).ecs.contains_spec(e) ==> old(self).ecs.contains_spec(e),
            exists|n: nat, games: Seq<Game>|
                #[trigger] blasted_through(n, games, blast_victims(old(self).ecs.records(), center, radius), damage)
                    && games[0] == *old(self) && games.last() == *final(self),
        decreases old(self).ecs.records().len(), 1nat,
    {
        let mut hit: Vec<Entity> = Vec::new();
        let n = self.ecs.len();
        let ghost rs = self.ecs.records();
        let mut i: usize = 0;
        while i < n
            invariant
                n == self.ecs.records().len(),
                rs == self.ecs.records(),
                *self == *old(self),
                i <= n,
                self.wf(),
                hit@ == blast_victims(rs.subrange(0, i as int), center, radius),
            decreases n - i,
        {
            let r = self.ecs.record_at(i);
            proof {
                assert(rs.subrange(0, i + 1).drop_last() =~= rs.subrange(0, i as int));
                reveal_with_fuel(Seq::filter, 1);
                let f = |q: EntityRecord| caught_in_blast(q, center, radius);
                let f0 = rs.subrange(0, i as int).filter(f);
                let f1 = rs.subrange(0, i + 1).filter(f);
                if caught_in_blast(r, center, radius) {
                    assert(f1 == f0.push(r));
                    assert(f1.map_values(|q: EntityRecord| q.entity) =~= f0.map_values(|q: EntityRecord| q.entity).push(
                        r.entity,
                    ));
                } else {
                    assert(f1 == f0);
                }
            }
            assert(crate::world::record_ok(self.ecs.records()[i as int]));
            if r.combat.is_some() {
                let dx = r.position.x as i64 - center.x as i64;
                let dy = r.position.y as i64 - center.y as i64;
                let ax = if dx < 0 {
                    -dx
                } else {
                    dx
                };
                let ay = if dy < 0 {
                    -dy
                } else {
                    dy
                };
                let dist = if ax < ay {
                    ay
                } else {
                    ax
                };
                assert(dist == crate::components::chebyshev(center, r.position));
                if dist <= radius as i64 {
                    hit.push(r.entity);
                }
            }
            i = i + 1;
        }
        assert(rs.subrange(0, n as int) =~= rs);
        let mut k: usize = 0;
        let ghost start_len = self.ecs.records().len();
        let ghost mut games: Seq<Game> = seq![*self];
        let ghost mut depth: nat = 0;
        while k < hit.len()
            invariant
                hit@ == blast_victims(old(self).ecs.records(), center, radius),
                k <= hit@.len(),
                games.len() == k + 1,
                games[0] == *old(self),
                games.last() == *self,
                forall|j: int| 0 <= j < k ==> #[trigger] blast_step(depth, games[j], games[j + 1], hit@[j], damage),
                self.wf(),
                self.ecs.records().len() <= start_len,
                start_len <= old(self).ecs.records().len(),
                self.player_entity == old(self).player_entity,
                self.rooms@ == old(self).rooms@,
                self.floor_positions@ == old(self).floor_positions@,
                self.floor_number == old(self).floor_number,
                self.player_turns_until_passive_healing == old(self).player_turns_until_passive_healing,
                self.player_facing_direction == old(self).player_facing_direction,
                self.actor_queue == old(self).actor_queue,
                self.player_inventory == old(self).player_inventory,
                forall|e: Entity| #[trigger] self.ecs.contains_spec(e) ==> old(self).ecs.contains_spec(e),
            decreases hit@.len() - k,
        {
            let target = hit[k];
            let ghost before = *self;
            if self.has_combat(target) {
                self.damage_entity(
                    DamageInfo { target, damage_amount: damage, damage_type: DamageType::Untyped, variance: false },
                );
            }
            proof {
                let info_k = DamageInfo {
                    target,
                    damage_amount: damage,
                    damage_type: DamageType::Untyped,
                    variance: false,
                };
                let mut step_depth: nat = 0;
                if combat_of(before.ecs, target) is Some {
                    step_depth = choose|n: nat| blow_dealt(n, before, *self, info_k);
                }
                let new_depth: nat = if step_depth > depth {
                    step_depth
                } else {
                    depth
                };
                if combat_of(before.ecs, target) is Some {
                    lemma_dealt_deeper(step_depth, new_depth, before, *self, info_k);
                }
                assert(blast_step(new_depth, before, *self, target, damage));
                let old_games = games;
                games = games.push(*self);
                assert forall|j: int| 0 <= j < k + 1 implies #[trigger] blast_step(
                    new_depth,
                    games[j],
                    games[j + 1],
                    hit@[j],
                    damage,
                ) by {
                    if j < k {
                        assert(games[j] == old_games[j] && games[j + 1] == old_games[j + 1]);
                        assert(blast_step(depth, games[j], games[j + 1], hit@[j], damage));
                        if combat_of(games[j].ecs, hit@[j]) is Some {
                            lemma_dealt_deeper(
                                depth,
                                new_depth,
                                games[j],
                                games[j + 1],
                                DamageInfo {
                                    target: hit@[j],
                                    damage_amount: damage,
                                    damage_type: DamageType::Untyped,
                                    variance: false,
                                },
                            );
                        }
                    }
                }
                depth = new_depth;
            }
            k = k + 1;
        }
        proof {
            lemma_blasted_through(depth, games, blast_victims(old(self).ecs.records(), center, radius), damage);
        }
    }

    /// Replaces the combat component of `e`, which exists, by `c`.
    pub fn set_combat(&mut self, e: Entity, c: CombatComponent)
        requires
            old(self).wf(),
            old(self).ecs.contains_spec(e),
            crate::world::combat_ok(c),
        ensures
            final(self).wf(),
            *final(self) == (Game { ecs: final(self).ecs, ..*old(self) }),
            final(self).ecs.records() == with_combat(old(self).ecs, e, c),
            final(self).ecs.records().len() == old(self).ecs.records().len(),
            combat_of(final(self).ecs, e) == Some(c),
            forall|e2: Entity| #[trigger] final(self).ecs.contains_spec(e2) == old(self).ecs.contains_spec(e2),
            forall|e2: Entity| e2 != e ==> #[trigger] final(self).ecs.get_spec(e2) == old(self).ecs.get_spec(e2),
    {
        let idx = self.ecs.index_of(e).unwrap();
        proof {
            crate::world::lemma_find_index(self.ecs.records(), e);
        }
        let rec = self.ecs.record_at(idx);
        assert(crate::world::record_ok(self.ecs.records()[idx as int]));
        self.ecs.set_record(idx, record_with_combat(rec, c));
        proof {
            crate::world::lemma_find_index(self.ecs.records(), e);
        }
    }

    /// The player's position.
    pub fn player_position(&self) -> (p: PositionComponent)
        requires
            self.wf(),
        ensures
            p == self.ecs.get_spec(self.player_entity).unwrap().position,
            crate::world::in_bounds(p),
    {
        proof {
            crate::world::lemma_find_index(self.ecs.records(), self.player_entity);
            let i = crate::world::find_index(self.ecs.records(), self.player_entity).unwrap();
            assert(crate::world::record_ok(self.ecs.records()[i]));
        }
        self.ecs.get(self.player_entity).unwrap().position
    }

    /// The player's combat component.
    pub fn player_combat(&self) -> (c: CombatComponent)
        requires
            self.wf(),
        ensures
            Some(c) == combat_of(self.ecs, self.player_entity),
            crate::world::combat_ok(c),
    {
        proof {
            crate::world::lemma_find_index(self.ecs.records(), self.player_entity);
            let i = crate::world::find_index(self.ecs.records(), self.player_entity).unwrap();
            assert(crate::world::record_ok(self.ecs.records()[i]));
        }
        self.ecs.get(self.player_entity).unwrap().combat.unwrap()
    }

    /// Whether `e` exists and has a combat component.
    pub fn has_combat(&self, e: Entity) -> (r: bool)
        ensures
            r == (combat_of(self.ecs, e) is Some),
    {
        match self.ecs.get(e) {
            Some(r) => r.combat.is_some(),
            None => false,
        }
    }
}


pub proof fn lemma_with_combat(w: World, e: Entity, c: CombatComponent)
    requires
        w.contains_spec(e),
    ensures
        crate::world::find_index(with_combat(w, e, c), e) == crate::world::find_index(w.records(), e),
        ({
            let i = crate::world::find_index(w.records(), e).unwrap();
            &&& 0 <= i < w.records().len()
            &&& with_combat(w, e, c)[i] == (EntityRecord { combat: Some(c), ..w.records()[i] })
        }),
        forall|e2: Entity| #[trigger]
            crate::world::find_index(with_combat(w, e, c), e2) == crate::world::find_index(w.records(), e2),
{
    crate::world::lemma_find_index(w.records(), e);
    let i = crate::world::find_index(w.records(), e).unwrap();
    let r = EntityRecord { combat: Some(c), ..w.records()[i] };
    crate::world::lemma_find_update(w.records(), i, r, e);
    assert forall|e2: Entity| #[trigger]
        crate::world::find_index(with_combat(w, e, c), e2) == crate::world::find_index(w.records(), e2) by {
        crate::world::lemma_find_update(w.records(), i, r, e2);
    }
}

/// Setting an entity's combat component to the one it has changes nothing.
pub proof fn lemma_with_same_combat(w: World, e: Entity)
    requires
        combat_of(w, e) is Some,
    ensures
        with_combat(w, e, combat_of(w, e).unwrap()) == w.records(),
{
    crate::world::lemma_find_index(w.records(), e);
    let i = crate::world::find_index(w.records(), e).unwrap();
    assert(w.records()[i] == (EntityRecord { combat: combat_of(w, e), ..w.records()[i] }));
    assert(with_combat(w, e, combat_of(w, e).unwrap()) =~= w.records());
}

/// Passive healing: two health points, never above the maximum.
pub open spec fn passively_healed(c: CombatComponent) -> CombatComponent {
    CombatComponent {
        current_health: if c.current_health + 2 > c.max_health {
            c.max_health
        } else {
            (c.current_health + 2) as u32
        },
        ..c
    }
}

/// A burn's effect on its bearer: the burn's damage per turn is lost, and the
/// burn has one turn fewer.
pub open spec fn burned(c: CombatComponent) -> CombatComponent {
    CombatComponent {
        current_health: health_after(c.current_health, c.burn_debuff.0 as int),
        burn_debuff: (c.burn_debuff.0, if c.burn_debuff.1 == 0 {
            0
        } else {
            (c.burn_debuff.1 - 1) as u32
        }),
        ..c
    }
}

/// The player's combat after its passive-healing countdown at the end of a
/// turn with the countdown at `countdown`.
pub open spec fn after_countdown(c: CombatComponent, is_player: bool, countdown: u32) -> CombatComponent {
    if is_player && countdown == 1 {
        passively_healed(c)
    } else {
        c
    }
}

/// What the end of `entity`'s turn did, from `before` to `after`: the
/// player's passive-healing countdown moves on (only on the player's
/// turn), the burn deals its damage and every timed effect loses a turn
/// (see `after_countdown`, `burned`, `ticked`); a monster burned to death is
/// removed. No entity is added, and the floor, the player, its facing, its
/// inventory and the queue of actors stay.
pub open spec fn turn_ended(before: Game, after: Game, entity: Entity) -> bool {
    &&& after.player_entity == before.player_entity
    &&& after.rooms@ == before.rooms@
    &&& after.floor_number == before.floor_number
    &&& after.player_facing_direction == before.player_facing_direction
    &&& after.actor_queue == before.actor_queue
    &&& after.player_inventory == before.player_inventory
    &&& forall|e: Entity| #[trigger] after.ecs.contains_spec(e) ==> before.ecs.contains_spec(e)
    &&& entity == before.player_entity ==> after.player_turns_until_passive_healing == (
        if before.player_turns_until_passive_healing == 1 {
            10
        } else {
            before.player_turns_until_passive_healing - 1
        })
    &&& entity != before.player_entity ==> after.player_turns_until_passive_healing
        == before.player_turns_until_passive_healing
    &&& {
        let c = after_countdown(
            combat_of(before.ecs, entity).unwrap(),
            entity == before.player_entity,
            before.player_turns_until_passive_healing,
        );
        if c.burn_debuff.0 == 0 {
            combat_of(after.ecs, entity) == Some(ticked(c))
        } else if burned(c).current_health == 0 && entity != before.player_entity {
            !after.ecs.contains_spec(entity)
        } else {
            combat_of(after.ecs, entity) == Some(ticked(burned(c)))
        }
    }
}

impl Game {
    /// The end of an entity's turn: the player's passive-healing countdown
    /// (two health every tenth turn), the burn's damage, and one turn off
    /// every buff and debuff (an effect with no turns left loses its amount).
    pub fn entity_end_of_turn(&mut self, entity: Entity)
        requires
            old(self).wf(),
            combat_of(old(self).ecs, entity) is Some,
        ensures
            final(self).wf(),
            turn_ended(*old(self), *final(self), entity),
    {
        let ghost c0 = combat_of(self.ecs, entity).unwrap();
        let idx = self.ecs.index_of(entity).unwrap();
        proof {
            crate::world::lemma_find_index(self.ecs.records(), entity);
        }
        let rec = self.ecs.record_at(idx);
        assert(crate::world::record_ok(self.ecs.records()[idx as int]));
        let mut c = rec.combat.unwrap();
        if entity == self.player_entity {
            self.player_turns_until_passive_healing = self.player_turns_until_passive_healing - 1;
            if self.player_turns_until_passive_healing == 0 {
                c.current_health = if c.current_health as u64 + 2 > c.max_health as u64 {
                    c.max_health
                } else {
                    c.current_health + 2
                };
                self.player_turns_until_passive_healing = 10;
            }
        }
        let ghost c1 = c;
        assert(c1 == after_countdown(c0, entity == old(self).player_entity, old(self).player_turns_until_passive_healing));
        self.ecs.set_record(idx, record_with_combat(rec, c));
        proof {
            crate::world::lemma_find_index(self.ecs.records(), entity);
            assert(self.ecs.get_spec(self.player_entity) is Some);
            if entity == self.player_entity {
                assert(combat_of(self.ecs, self.player_entity) == Some(c1));
            }
        }
        let burn = c.burn_debuff.0;
        if burn != 0 {
            let info = DamageInfo { target: entity, damage_amount: burn, damage_type: DamageType::Untyped, variance: false };
            let ghost mid = *self;
            proof {
                assert(combat_of(mid.ecs, entity) == Some(c1));
            }
            self.damage_entity(info);
            proof {
                let roll = choose|roll: DamageRoll|
                    roll_possible(info.variance, roll) && damage_outcome(mid, *self, info, roll);
                assert(damage_dealt(info, c1, roll) == burn);
                if !(burned(c1).current_health == 0 && entity != mid.player_entity) {
                    lemma_with_combat(mid.ecs, entity, CombatComponent { current_health: burned(c1).current_health, ..c1 });
                    assert(self.ecs.records() == with_combat(mid.ecs, entity, CombatComponent { current_health: burned(c1).current_health, ..c1 }));
                    assert(self.ecs.contains_spec(entity));
                }
            }
            let idx2 = match self.ecs.index_of(entity) {
                Some(i) => i,
                None => {
                    return;
                },
            };
            proof {
                crate::world::lemma_find_index(self.ecs.records(), entity);
                crate::world::lemma_find_index(mid.ecs.records(), entity);
                assert(self.ecs.records()[idx2 as int].combat == Some(CombatComponent { current_health: burned(c1).current_health, ..c1 }));
            }
            let rec2 = self.ecs.record_at(idx2);
            assert(crate::world::record_ok(self.ecs.records()[idx2 as int]));
            let mut c2 = rec2.combat.unwrap();
            if c2.burn_debuff.1 > 0 {
                c2.burn_debuff.1 = c2.burn_debuff.1 - 1;
            }
            let ghost c2b = c2;
            assert(c2b == burned(c1));
            let ticked_c = self.tick_timers(c2);
            self.ecs.set_record(idx2, record_with_combat(rec2, ticked_c));
            proof {
                crate::world::lemma_find_index(self.ecs.records(), entity);
                assert(self.ecs.get_spec(self.player_entity) is Some);
            }
        } else {
            let ticked_c = self.tick_timers(c);
            self.ecs.set_record(idx, record_with_combat(self.ecs.record_at(idx), ticked_c));
            proof {
                crate::world::lemma_find_index(self.ecs.records(), entity);
                assert(self.ecs.get_spec(self.player_entity) is Some);
            }
        }
    }

    fn tick_timers(&self, c: CombatComponent) -> (r: CombatComponent)
        requires
            crate::world::combat_ok(c),
        ensures
            r == ticked(c),
            crate::world::combat_ok(r),
            r.strength_buff == if c.strength_buff.1 <= 1 {
                (0u32, 0u32)
            } else {
                (c.strength_buff.0, (c.strength_buff.1 - 1) as u32)
            },
            r.focus_buff == if c.focus_buff.1 <= 1 {
                (0u32, 0u32)
            } else {
                (c.focus_buff.0, (c.focus_buff.1 - 1) as u32)
            },
            r.agility_buff == if c.agility_buff.1 <= 1 {
                (0u32, 0u32)
            } else {
                (c.agility_buff.0, (c.agility_buff.1 - 1) as u32)
            },
            r.luck_buff == if c.luck_buff.1 <= 1 {
                (0u32, 0u32)
            } else {
                (c.luck_buff.0, (c.luck_buff.1 - 1) as u32)
            },
            r.strength_debuff == if c.strength_debuff.1 <= 1 {
                (0u32, 0u32)
            } else {
                (c.strength_debuff.0, (c.strength_debuff.1 - 1) as u32)
            },
            r.focus_debuff == if c.focus_debuff.1 <= 1 {
                (0u32, 0u32)
            } else {
                (c.focus_debuff.0, (c.focus_debuff.1 - 1) as u32)
            },
            r.agility_debuff == if c.agility_debuff.1 <= 1 {
                (0u32, 0u32)
            } else {
                (c.agility_debuff.0, (c.agility_debuff.1 - 1) as u32)
            },
            r.luck_debuff == if c.luck_debuff.1 <= 1 {
                (0u32, 0u32)
            } else {
                (c.luck_debuff.0, (c.luck_debuff.1 - 1) as u32)
            },
            r.burn_debuff == if c.burn_debuff.1 <= 1 {
                (0u32, 0u32)
            } else {
                (c.burn_debuff.0, (c.burn_debuff.1 - 1) as u32)
            },
    {
        CombatComponent {
            strength_buff: tick_exec(c.strength_buff),
            focus_buff: tick_exec(c.focus_buff),
            agility_buff: tick_exec(c.agility_buff),
            luck_buff: tick_exec(c.luck_buff),
            strength_debuff: tick_exec(c.strength_debuff),
            focus_debuff: tick_exec(c.focus_debuff),
            agility_debuff: tick_exec(c.agility_debuff),
            luck_debuff: tick_exec(c.luck_debuff),
            burn_debuff: tick_exec(c.burn_debuff),
            ..c
        }
    }
}


/// Some record of `w` is a wall on `p`.
pub open spec fn has_wall_at(w: World, p: PositionComponent) -> bool {
    exists|i: int|
        0 <= i < w.records().len() && #[trigger] w.records()[i].position == p && w.records()[i].name@
            == "Wall"@
}

/// Some record of `w` is a staircase strictly inside room `r`.
pub open spec fn has_staircase_in(w: World, r: Room) -> bool {
    exists|i: int|
        0 <= i < w.records().len() && #[trigger] w.records()[i].staircase is Some
            && crate::generate_dungeon::strictly_inside(r, w.records()[i].position)
}

/// Whether `e` stays when the floor changes: the player and what it carries.
pub open spec fn kept_on_floor_change(g: Game, e: Entity) -> bool {
    e == g.player_entity || g.player_inventory@.contains(Some(e))
}

/// The records that stay when the floor changes, in table order, with the
/// player moved to the origin.
pub open spec fn records_kept_on_floor_change(g: Game) -> Seq<EntityRecord> {
    crate::movement::moved_to(g.ecs, g.player_entity, PositionComponent { x: 0, y: 0 }).filter(
        |r: EntityRecord| kept_on_floor_change(g, r.entity),
    )
}

/// Whether a record is one a new floor brings: a wall, a staircase or a
/// monster.
pub open spec fn new_floor_record(r: EntityRecord) -> bool {
    r.name@ == "Wall"@ || r.staircase is Some || r.ai is Some
}

/// The table `rs` starts with `kept` and holds nothing after it but what a
/// new floor brings.
pub open spec fn kept_then_new(rs: Seq<EntityRecord>, kept: Seq<EntityRecord>) -> bool {
    &&& kept.len() <= rs.len()
    &&& rs.subrange(0, kept.len() as int) == kept
    &&& forall|i: int| kept.len() <= i < rs.len() ==> new_floor_record(#[trigger] rs[i])
}

/// A table that keeps its records in place and grows only by what a new
/// floor brings keeps `kept_then_new`.
proof fn lemma_kept_then_new_grows(rs: Seq<EntityRecord>, rs2: Seq<EntityRecord>, kept: Seq<EntityRecord>)
    requires
        kept_then_new(rs, kept),
        rs.len() <= rs2.len(),
        forall|i: int| 0 <= i < rs.len() ==> #[trigger] rs2[i] == rs[i],
        forall|i: int| rs.len() <= i < rs2.len() ==> new_floor_record(#[trigger] rs2[i]),
    ensures
        kept_then_new(rs2, kept),
{
    assert(rs2.subrange(0, kept.len() as int) =~= rs.subrange(0, kept.len() as int));
    assert forall|i: int| kept.len() <= i < rs2.len() implies new_floor_record(#[trigger] rs2[i]) by {
        if i < rs.len() {
            assert(rs2[i] == rs[i]);
        }
    }
}

/// A floor laid out as generation guarantees: its floor tiles are those of
/// its rooms and some valid corridors, listed once each, and every wall
/// tile holds a wall entity.
pub open spec fn floor_laid_out(g: Game) -> bool {
    exists|cs: Seq<crate::generate_dungeon::Corridor>|
        #![trigger crate::generate_dungeon::valid_corridors(g.rooms@, cs)]
        {
            &&& crate::generate_dungeon::valid_corridors(g.rooms@, cs)
            &&& g.floor_positions@.no_duplicates()
            &&& forall|p: PositionComponent| #[trigger]
                g.floor_positions@.contains(p) <==> crate::generate_dungeon::is_floor(g.rooms@, cs, p)
            &&& forall|p: PositionComponent| #[trigger]
                crate::generate_dungeon::is_wall(g.rooms@, cs, p) ==> has_wall_at(g.ecs, p)
        }
}

/// Every record of `rs` from index `from` on has an id of at least `id0`.
pub open spec fn ids_from(rs: Seq<EntityRecord>, from: int, id0: u64) -> bool {
    forall|i: int| from <= i < rs.len() ==> (#[trigger] rs[i]).entity.id >= id0
}

/// Exactly one record of `rs` from index `from` on is a staircase.
pub open spec fn one_staircase_from(rs: Seq<EntityRecord>, from: int) -> bool {
    exists|i: int|
        #![trigger rs[i]]
        from <= i < rs.len() && rs[i].staircase is Some && forall|j: int|
            from <= j < rs.len() && (#[trigger] rs[j]).staircase is Some ==> j == i
}

/// No wall of `rs` from index `from` on stands on a tile of `floor`.
pub open spec fn walls_off_floor(rs: Seq<EntityRecord>, from: int, floor: Seq<PositionComponent>) -> bool {
    forall|i: int| from <= i < rs.len() && (#[trigger] rs[i]).name@ == "Wall"@ ==> !floor.contains(rs[i].position)
}

/// What laying out the next floor did, from `g0` to `g1` (see
/// `Game::next_floor`): the player, its facing, countdown, inventory and
/// the queue stay; the floor number goes up (not past the largest `u32`);
/// the player stands at the origin; the floor is laid out with a staircase
/// in its staircase room; the player and what it carries come first in the
/// table, followed by new walls, staircases and monsters (see
/// `kept_then_new`), all with fresh ids (at least the table's next id
/// before, which never falls), exactly one staircase among them, and no new
/// wall on a floor tile; and a floor animation is queued.
pub open spec fn floor_changed(g0: Game, g1: Game) -> bool {
    let k = records_kept_on_floor_change(g0).len() as int;
    &&& g1.ecs.next_id() >= g0.ecs.next_id()
    &&& ids_from(g1.ecs.records(), k, g0.ecs.next_id())
    &&& one_staircase_from(g1.ecs.records(), k)
    &&& walls_off_floor(g1.ecs.records(), k, g1.floor_positions@)
    &&& g1.player_entity == g0.player_entity
    &&& g1.player_turns_until_passive_healing == g0.player_turns_until_passive_healing
    &&& g1.player_facing_direction == g0.player_facing_direction
    &&& g1.actor_queue == g0.actor_queue
    &&& g1.player_inventory == g0.player_inventory
    &&& g1.floor_number == if g0.floor_number < u32::MAX {
        g0.floor_number + 1
    } else {
        g0.floor_number as int
    }
    &&& g1.ecs.get_spec(g1.player_entity) == Some(
        EntityRecord { position: PositionComponent { x: 0, y: 0 }, ..g0.ecs.get_spec(g0.player_entity).unwrap() },
    )
    &&& floor_laid_out(g1)
    &&& has_staircase_in(g1.ecs, crate::generate_dungeon::staircase_room(g1.rooms@))
    &&& kept_then_new(g1.ecs.records(), records_kept_on_floor_change(g0))
    &&& g1.animation_queue@ == g0.animation_queue@.push(Animation::NextFloor { floor_number: g1.floor_number })
}

impl Game {
    /// Moves the player to `p`, leaving everything else as it is.
    pub(crate) fn move_player(&mut self, p: PositionComponent)
        requires
            old(self).wf_core(),
            crate::world::in_bounds(p),
        ensures
            final(self).wf_core(),
            *final(self) == (Game { ecs: final(self).ecs, ..*old(self) }),
            final(self).ecs.records() == crate::movement::moved_to(old(self).ecs, old(self).player_entity, p),
            final(self).ecs.next_id() == old(self).ecs.next_id(),
            final(self).rooms@ == old(self).rooms@,
            final(self).player_entity == old(self).player_entity,
            final(self).floor_number == old(self).floor_number,
            final(self).floor_positions@ == old(self).floor_positions@,
            final(self).player_turns_until_passive_healing == old(self).player_turns_until_passive_healing,
            final(self).player_facing_direction == old(self).player_facing_direction,
            final(self).actor_queue == old(self).actor_queue,
            final(self).player_inventory == old(self).player_inventory,
            final(self).ecs.get_spec(final(self).player_entity) == Some(
                EntityRecord { position: p, ..old(self).ecs.get_spec(old(self).player_entity).unwrap() },
            ),
            forall|e: Entity| e != old(self).player_entity ==> #[trigger] final(self).ecs.get_spec(e) == old(self).ecs.get_spec(e),
            forall|e: Entity| #[trigger] final(self).ecs.contains_spec(e) == old(self).ecs.contains_spec(e),
            final(self).ecs.records().len() == old(self).ecs.records().len(),
            forall|i: int| 0 <= i < final(self).ecs.records().len() && #[trigger] final(self).ecs.records()[i].entity != old(self).player_entity ==> final(self).ecs.records()[i] == old(self).ecs.records()[i],
    {
        let idx = self.ecs.index_of(self.player_entity).unwrap();
        proof {
            crate::world::lemma_find_index(self.ecs.records(), self.player_entity);
        }
        let rec = self.ecs.record_at(idx);
        assert(crate::world::record_ok(self.ecs.records()[idx as int]));
        self.ecs.set_record(idx, EntityRecord { position: p, ..rec });
        proof {
            crate::world::lemma_find_index(self.ecs.records(), self.player_entity);
        }
    }

    /// Lays out the next floor: the player goes back to the origin, every
    /// entity but the player and the items it carries is removed, a new
    /// floor is generated, its walls and its staircase are created, the floor
    /// number goes up, a floor animation is queued, and monsters are spawned
    /// (see `floor_changed`).
    pub fn next_floor(&mut self)
        requires
            old(self).wf_core(),
        ensures
            final(self).wf(),
            floor_changed(*old(self), *final(self)),
            final(self).player_entity == old(self).player_entity,
            final(self).player_turns_until_passive_healing == old(self).player_turns_until_passive_healing,
            final(self).player_facing_direction == old(self).player_facing_direction,
            final(self).actor_queue == old(self).actor_queue,
            final(self).player_inventory == old(self).player_inventory,
            final(self).floor_number == if old(self).floor_number < u32::MAX {
                old(self).floor_number + 1
            } else {
                old(self).floor_number as int
            },
            final(self).ecs.get_spec(final(self).player_entity) == Some(
                EntityRecord {
                    position: PositionComponent { x: 0, y: 0 },
                    ..old(self).ecs.get_spec(old(self).player_entity).unwrap()
                },
            ),
            floor_laid_out(*final(self)),
            has_staircase_in(final(self).ecs, crate::generate_dungeon::staircase_room(final(self).rooms@)),
            kept_then_new(final(self).ecs.records(), records_kept_on_floor_change(*old(self))),
            final(self).animation_queue@ == old(self).animation_queue@.push(
                Animation::NextFloor { floor_number: final(self).floor_number },
            ),
    {
        let ghost g0 = *self;
        self.move_player(PositionComponent { x: 0, y: 0 });
        let mut keep: Vec<Entity> = Vec::new();
        keep.push(self.player_entity);
        proof {
            assert forall|x: Entity| #[trigger] keep@.contains(x) <==> x == self.player_entity by {
                if x == self.player_entity {
                    assert(keep@[0] == x);
                }
            }
        }
        let mut k: usize = 0;
        while k < 16
            invariant
                k <= 16,
                keep@.len() >= 1,
                keep@[0] == self.player_entity,
                forall|x: Entity|
                    #[trigger] keep@.contains(x) <==> (x == self.player_entity || exists|j: int|
                        0 <= j < k && self.player_inventory@[j] == Some(x)),
            decreases 16 - k,
        {
            let ghost before = keep@;
            match self.player_inventory[k] {
                Some(item) => keep.push(item),
                None => {},
            }
            proof {
                assert forall|x: Entity|
                    #[trigger] keep@.contains(x) <==> (x == self.player_entity || exists|j: int|
                        0 <= j < k + 1 && self.player_inventory@[j] == Some(x)) by {
                    if keep@.contains(x) && x != self.player_entity {
                        let a = choose|a: int| 0 <= a < keep@.len() && keep@[a] == x;
                        if a < before.len() {
                            assert(before[a] == x);
                            assert(before.contains(x));
                        } else {
                            assert(self.player_inventory@[k as int] == Some(x));
                        }
                    }
                    if exists|j: int| 0 <= j < k + 1 && self.player_inventory@[j] == Some(x) {
                        let j = choose|j: int| 0 <= j < k + 1 && self.player_inventory@[j] == Some(x);
                        if j < k {
                            assert(before.contains(x));
                            let a = choose|a: int| 0 <= a < before.len() && before[a] == x;
                            assert(keep@[a] == x);
                        } else {
                            assert(keep@[keep@.len() - 1] == x);
                        }
                    }
                    if x == self.player_entity {
                        assert(keep@[0] == x);
                    }
                }
            }
            k = k + 1;
        }
        let ghost before_retain = self.ecs;
        assert(keep@.contains(self.player_entity)) by {
            assert(keep@[0] == self.player_entity);
        }
        self.ecs.retain_only(&keep);
        proof {
            assert(self.ecs.get_spec(self.player_entity) == before_retain.get_spec(self.player_entity));
            assert forall|x: Entity| #[trigger] keep@.contains(x) == kept_on_floor_change(g0, x) by {
                if g0.player_inventory@.contains(Some(x)) {
                    let j = choose|j: int| 0 <= j < g0.player_inventory@.len() && g0.player_inventory@[j] == Some(x);
                    assert(self.player_inventory@[j] == Some(x));
                }
            }
            assert((|r: EntityRecord| keep@.contains(r.entity)) =~= (|r: EntityRecord|
                kept_on_floor_change(g0, r.entity)));
            assert(self.ecs.records() == records_kept_on_floor_change(g0));
            assert(self.ecs.records().subrange(0, self.ecs.records().len() as int) =~= self.ecs.records());
        }
        let ghost kept = self.ecs.records();
        let ghost g_anim = self.animation_queue;
        assert(kept_then_new(self.ecs.records(), kept));
        let plan = generate_dungeon(&mut self.dungeon_generation_rng);
        let ghost cs = plan.corridors@;
        let ghost plan_rooms = plan.rooms@;
        let ghost plan_floor = plan.floor@;
        assert(forall|p: PositionComponent| #[trigger] plan_floor.contains(p) <==> crate::generate_dungeon::is_floor(plan_rooms, cs, p));
        self.rooms = plan.rooms;
        self.floor_positions = plan.floor;
        let walls = plan.walls;
        let ghost walls_before = self.ecs.records().len();
        let mut w: usize = 0;
        while w < walls.len()
            invariant
                self.wf_core(),
                crate::generate_dungeon::valid_room_layout(self.rooms@),
                crate::generate_dungeon::valid_corridors(self.rooms@, cs),
                w <= walls@.len(),
                forall|p: PositionComponent| #[trigger] walls@.contains(p) <==> crate::generate_dungeon::is_wall(self.rooms@, cs, p),
                forall|j: int| 0 <= j < w ==> has_wall_at(self.ecs, #[trigger] walls@[j]),
                self.player_entity == old(self).player_entity,
                self.ecs.get_spec(self.player_entity) == Some(
                    EntityRecord {
                        position: PositionComponent { x: 0, y: 0 },
                        ..old(self).ecs.get_spec(old(self).player_entity).unwrap()
                    },
                ),
                self.player_turns_until_passive_healing == old(self).player_turns_until_passive_healing,
                self.player_facing_direction == old(self).player_facing_direction,
                self.actor_queue == old(self).actor_queue,
                self.player_inventory == old(self).player_inventory,
                self.floor_number == old(self).floor_number,
                self.rooms@ == plan_rooms,
                self.floor_positions@ == plan_floor,
                kept_then_new(self.ecs.records(), kept),
                self.animation_queue == g_anim,
                kept == records_kept_on_floor_change(g0),
                self.ecs.next_id() >= g0.ecs.next_id(),
                ids_from(self.ecs.records(), kept.len() as int, g0.ecs.next_id()),
                forall|i: int|
                    kept.len() <= i < self.ecs.records().len() ==> (#[trigger] self.ecs.records()[i]).staircase is None
                        && self.ecs.records()[i].name@ == "Wall"@ && !plan_floor.contains(self.ecs.records()[i].position),
                forall|p: PositionComponent| #[trigger] plan_floor.contains(p) <==> crate::generate_dungeon::is_floor(plan_rooms, cs, p),
            decreases walls@.len() - w,
        {
            let p = walls[w];
            proof {
                assert(walls@.contains(p));
                lemma_wall_small(self.rooms@, cs, p);
            }
            let ghost before = self.ecs;
            assert(before.contains_spec(self.player_entity));
            crate::entities::create_wall(p, &mut self.ecs, &mut self.dungeon_generation_rng);
            proof {
                assert(self.ecs.get_spec(self.player_entity) == before.get_spec(self.player_entity));
                lemma_kept_then_new_grows(before.records(), self.ecs.records(), kept);
                let n = self.ecs.records().len() - 1;
                assert(self.ecs.records()[n].position == p);
                assert(!plan_floor.contains(p));
                assert forall|i: int| kept.len() <= i < self.ecs.records().len() implies (#[trigger] self.ecs.records()[i]).staircase is None
                    && self.ecs.records()[i].name@ == "Wall"@ && !plan_floor.contains(self.ecs.records()[i].position)
                    && self.ecs.records()[i].entity.id >= g0.ecs.next_id() by {
                    if i < n {
                        assert(self.ecs.records()[i] == before.records()[i]);
                    }
                }
                assert forall|j: int| 0 <= j < w + 1 implies has_wall_at(self.ecs, #[trigger] walls@[j]) by {
                    if j < w {
                        let i = choose|i: int|
                            0 <= i < before.records().len() && #[trigger] before.records()[i].position == walls@[j]
                                && before.records()[i].name@ == "Wall"@;
                        assert(self.ecs.records()[i] == before.records()[i]);
                    } else {
                        assert(self.ecs.records()[n].position == walls@[j]);
                    }
                }
            }
            w = w + 1;
        }
        let stairs = place_staircase(&self.rooms, &mut self.dungeon_generation_rng);
        proof {
            lemma_staircase_small(self.rooms@, stairs);
        }
        let ghost before_stairs = self.ecs;
        assert(before_stairs.contains_spec(self.player_entity));
        crate::entities::create_staircase(stairs, &mut self.ecs);
        proof {
            reveal_strlit("Staircase");
            reveal_strlit("Wall");
            assert("Staircase"@.len() != "Wall"@.len());
            let ns = self.ecs.records().len() - 1;
            assert forall|i: int| kept.len() <= i < self.ecs.records().len() implies (#[trigger] self.ecs.records()[i]).entity.id
                >= g0.ecs.next_id() && (i != ns ==> self.ecs.records()[i].staircase is None) && (self.ecs.records()[i].name@
                == "Wall"@ ==> !plan_floor.contains(self.ecs.records()[i].position)) by {
                if i < ns {
                    assert(self.ecs.records()[i] == before_stairs.records()[i]);
                }
            }
            assert(ids_from(self.ecs.records(), kept.len() as int, g0.ecs.next_id()));
            assert(walls_off_floor(self.ecs.records(), kept.len() as int, plan_floor));
            assert(self.ecs.records()[ns].staircase is Some);
            assert(one_staircase_from(self.ecs.records(), kept.len() as int));
        }
        proof {
            assert(self.ecs.get_spec(self.player_entity) == before_stairs.get_spec(self.player_entity));
            lemma_kept_then_new_grows(before_stairs.records(), self.ecs.records(), kept);
            let n = self.ecs.records().len() - 1;
            assert(self.ecs.records()[n].staircase is Some);
            assert forall|p: PositionComponent| #[trigger]
                crate::generate_dungeon::is_wall(self.rooms@, cs, p) implies has_wall_at(self.ecs, p) by {
                assert(walls@.contains(p));
                let j = choose|j: int| 0 <= j < walls@.len() && walls@[j] == p;
                assert(has_wall_at(before_stairs, walls@[j]));
                let i = choose|i: int|
                    0 <= i < before_stairs.records().len() && #[trigger] before_stairs.records()[i].position == p
                        && before_stairs.records()[i].name@ == "Wall"@;
                assert(self.ecs.records()[i] == before_stairs.records()[i]);
            }
        }
        if self.floor_number < u32::MAX {
            self.floor_number = self.floor_number + 1;
        }
        self.animation_queue.push_back(Animation::NextFloor { floor_number: self.floor_number });
        let ghost before_spawn = *self;
        assert(crate::generate_dungeon::valid_corridors(before_spawn.rooms@, cs));
        assert(before_spawn.floor_positions@ == plan_floor);
        assert(before_spawn.rooms@ == plan_rooms);
        assert(floor_laid_out(before_spawn));
        assert(has_staircase_in(before_spawn.ecs, crate::generate_dungeon::staircase_room(before_spawn.rooms@)));
        assert(before_spawn.ecs.contains_spec(self.player_entity));
        self.spawn_enemies();
        proof {
            lemma_kept_then_new_grows(before_spawn.ecs.records(), self.ecs.records(), kept);
            lemma_laid_out_kept(before_spawn, *self);
            crate::world::lemma_find_prefix(before_spawn.ecs.records(), self.ecs.records(), self.player_entity);
            crate::world::lemma_find_index(before_spawn.ecs.records(), self.player_entity);
            let i = crate::world::find_index(before_spawn.ecs.records(), self.player_entity).unwrap();
            assert(self.ecs.records()[i] == before_spawn.ecs.records()[i]);
            let b = before_spawn.ecs.records();
            let r = self.ecs.records();
            let k = kept.len() as int;
            assert forall|j: int| k <= j < r.len() implies (#[trigger] r[j]).entity.id >= g0.ecs.next_id() && (
            r[j].name@ == "Wall"@ ==> !self.floor_positions@.contains(r[j].position)) && (j >= b.len() ==> r[j].staircase is None) by {
                if j < b.len() {
                    assert(r[j] == b[j]);
                }
            }
            assert(ids_from(r, k, g0.ecs.next_id()));
            assert(walls_off_floor(r, k, self.floor_positions@));
            let si = choose|si: int| #![trigger b[si]] k <= si < b.len() && b[si].staircase is Some && forall|j: int|
                k <= j < b.len() && (#[trigger] b[j]).staircase is Some ==> j == si;
            assert(r[si] == b[si]);
            assert forall|j: int| k <= j < r.len() && (#[trigger] r[j]).staircase is Some implies j == si by {
                if j < b.len() {
                    assert(r[j] == b[j]);
                }
            }
            assert(one_staircase_from(r, k));
        }
    }
}

proof fn lemma_wall_small(rooms: Seq<Room>, cs: Seq<crate::generate_dungeon::Corridor>, p: PositionComponent)
    requires
        crate::generate_dungeon::valid_room_layout(rooms),
        crate::generate_dungeon::valid_corridors(rooms, cs),
        crate::generate_dungeon::is_wall(rooms, cs, p),
    ensures
        crate::world::in_bounds(p),
{
    let len = rooms.len() as int;
    if crate::generate_dungeon::on_borders(rooms, len, p) {
        crate::generate_dungeon::lemma_on_borders_witness(rooms, len, p);
        let k = choose|k: int| 0 <= k < len && #[trigger] crate::generate_dungeon::on_border(rooms[k], p);
        assert(crate::generate_dungeon::room_in_bounds(rooms[k]));
    } else {
        let f = choose|f: PositionComponent|
            #![trigger crate::generate_dungeon::on_corridors(cs, cs.len() as int, f), crate::components::is_adjacent8(f, p)]
            crate::generate_dungeon::on_corridors(cs, cs.len() as int, f) && crate::components::is_adjacent8(f, p);
        crate::generate_dungeon::lemma_valid_is_drawn(rooms, cs);
        crate::generate_dungeon::lemma_corridor_tiles_small(rooms, cs, cs.len() as int, f);
    }
}

proof fn lemma_staircase_small(rooms: Seq<Room>, p: PositionComponent)
    requires
        crate::generate_dungeon::valid_room_layout(rooms),
        crate::generate_dungeon::strictly_inside(crate::generate_dungeon::staircase_room(rooms), p),
    ensures
        crate::world::in_bounds(p),
{
    if rooms.len() >= 2 {
        assert(crate::generate_dungeon::room_in_bounds(rooms[1]));
    } else {
        assert(crate::generate_dungeon::room_in_bounds(rooms[0]));
    }
}


/// Appending records keeps every fact about the floor that holds of the
/// records already there.
proof fn lemma_laid_out_kept(before: Game, after: Game)
    requires
        floor_laid_out(before),
        has_staircase_in(before.ecs, crate::generate_dungeon::staircase_room(before.rooms@)),
        after.rooms@ == before.rooms@,
        after.floor_positions@ == before.floor_positions@,
        after.ecs.records().len() >= before.ecs.records().len(),
        forall|i: int| 0 <= i < before.ecs.records().len() ==> #[trigger] after.ecs.records()[i] == before.ecs.records()[i],
    ensures
        floor_laid_out(after),
        has_staircase_in(after.ecs, crate::generate_dungeon::staircase_room(after.rooms@)),
{
    let cs = choose|cs: Seq<crate::generate_dungeon::Corridor>|
        #![trigger crate::generate_dungeon::valid_corridors(before.rooms@, cs)]
        {
            &&& crate::generate_dungeon::valid_corridors(before.rooms@, cs)
            &&& before.floor_positions@.no_duplicates()
            &&& forall|p: PositionComponent| #[trigger]
                before.floor_positions@.contains(p) <==> crate::generate_dungeon::is_floor(before.rooms@, cs, p)
            &&& forall|p: PositionComponent| #[trigger]
                crate::generate_dungeon::is_wall(before.rooms@, cs, p) ==> has_wall_at(before.ecs, p)
        };
    assert forall|p: PositionComponent| #[trigger]
        crate::generate_dungeon::is_wall(after.rooms@, cs, p) implies has_wall_at(after.ecs, p) by {
        assert(has_wall_at(before.ecs, p));
        let i = choose|i: int|
            0 <= i < before.ecs.records().len() && #[trigger] before.ecs.records()[i].position == p
                && before.ecs.records()[i].name@ == "Wall"@;
        assert(after.ecs.records()[i] == before.ecs.records()[i]);
    }
    let i = choose|i: int|
        0 <= i < before.ecs.records().len() && #[trigger] before.ecs.records()[i].staircase is Some
            && crate::generate_dungeon::strictly_inside(
            crate::generate_dungeon::staircase_room(before.rooms@),
            before.ecs.records()[i].position,
        );
    assert(after.ecs.records()[i] == before.ecs.records()[i]);
}

impl Game {
    /// Populates rooms 1 to n - 1, with n drawn from 7 to 9: for each such
    /// room that exists, up to 30 random tiles of it are tried, and a random
    /// monster is created on the first one no entity stands on.
    pub fn spawn_enemies(&mut self)
        requires
            old(self).wf(),
        ensures
            final(self).wf(),
            final(self).player_entity == old(self).player_entity,
            final(self).rooms@ == old(self).rooms@,
            final(self).floor_positions@ == old(self).floor_positions@,
            final(self).floor_number == old(self).floor_number,
            final(self).player_turns_until_passive_healing == old(self).player_turns_until_passive_healing,
            final(self).player_facing_direction == old(self).player_facing_direction,
            final(self).actor_queue == old(self).actor_queue,
            final(self).player_inventory == old(self).player_inventory,
            final(self).animation_queue == old(self).animation_queue,
            final(self).ecs.records().len() >= old(self).ecs.records().len(),
            final(self).ecs.next_id() >= old(self).ecs.next_id(),
            forall|i: int| 0 <= i < old(self).ecs.records().len() ==> #[trigger] final(self).ecs.records()[i] == old(self).ecs.records()[i],
            forall|i: int|
                old(self).ecs.records().len() <= i < final(self).ecs.records().len() ==> {
                    let r = #[trigger] final(self).ecs.records()[i];
                    &&& r.ai is Some
                    &&& r.staircase is None
                    &&& r.name@ != "Wall"@
                    &&& r.entity.id >= old(self).ecs.next_id()
                    &&& !old(self).ecs.occupied(r.position)
                    &&& exists|k: int| 1 <= k < final(self).rooms@.len() && crate::generate_dungeon::in_interior(#[trigger] final(self).rooms@[k], r.position)
                },
            forall|i: int, j: int|
                old(self).ecs.records().len() <= i < j < final(self).ecs.records().len() ==> #[trigger] final(self).ecs.records()[i].position != #[trigger] final(self).ecs.records()[j].position,
            final(self).ecs.records().len() <= old(self).ecs.records().len() + 8,
            forall|k: int| 1 <= k < 7 && k < final(self).rooms@.len() ==> #[trigger] room_occupied(*final(self), k),
    {
        let ghost start = *self;
        let n0 = self.ecs.len();
        let mut obstacles = TileSet::new();
        let mut i: usize = 0;
        while i < n0
            invariant
                n0 == self.ecs.records().len(),
                i <= n0,
                obstacles.wf(),
                forall|p: PositionComponent| #[trigger] obstacles@.contains(p) <==> exists|j: int| 0 <= j < i && self.ecs.records()[j].position == p,
            decreases n0 - i,
        {
            obstacles.insert(self.ecs.record_at(i).position);
            i = i + 1;
        }
        let count = gen_range_u32(&mut self.dungeon_generation_rng, 7, 10);
        let mut room_index: u32 = 1;
        assert(spawn_inv(start, *self, obstacles));
        while room_index < count
            invariant
                spawn_inv(start, *self, obstacles),
                1 <= room_index <= count,
                7 <= count < 10,
                self.ecs.records().len() <= start.ecs.records().len() + room_index - 1,
                forall|k: int| 1 <= k < room_index && k < self.rooms@.len() ==> #[trigger] room_occupied(*self, k),
            decreases count - room_index,
        {
            if (room_index as usize) < self.rooms.len() {
                let room = self.rooms[room_index as usize];
                assert(crate::generate_dungeon::room_in_bounds(self.rooms@[room_index as int]));
                let mut attempt: u32 = 0;
                let mut placed = false;
                let ghost len0 = self.ecs.records().len();
                while attempt < 30 && !placed
                    invariant
                        spawn_inv(start, *self, obstacles),
                        room == self.rooms@[room_index as int],
                        1 <= room_index < self.rooms@.len(),
                        crate::generate_dungeon::room_in_bounds(room),
                        attempt <= 30,
                        self.ecs.records().len() == len0 + if placed {
                            1int
                        } else {
                            0int
                        },
                        (placed || attempt > 0) ==> room_occupied(*self, room_index as int),
                        forall|k: int| 1 <= k < room_index && k < self.rooms@.len() ==> #[trigger] room_occupied(*self, k),
                    decreases 30 - attempt + (if placed { 0int } else { 1int }),
                {
                    let ghost head = *self;
                    let p = random_point_in(room, &mut self.dungeon_generation_rng);
                    if !obstacles.contains(p) {
                        let ghost before = *self;
                        self.place_enemy(p, &mut obstacles, Ghost(start), Ghost(room_index as int));
                        proof {
                            let n = self.ecs.records().len() - 1;
                            assert(self.ecs.records()[n].position == p);
                            assert(room_occupied(*self, room_index as int));
                            assert forall|k: int| 1 <= k < room_index && k < self.rooms@.len() implies #[trigger] room_occupied(*self, k) by {
                                assert(room_occupied(head, k));
                                let j = choose|j: int| 0 <= j < head.ecs.records().len()
                                    && crate::generate_dungeon::in_interior(head.rooms@[k], head.ecs.records()[j].position);
                                assert(self.ecs.records()[j] == self.ecs.records().drop_last()[j]);
                            }
                        }
                        placed = true;
                    } else {
                        proof {
                            let j = choose|j: int| 0 <= j < self.ecs.records().len() && self.ecs.records()[j].position == p;
                            assert(room_occupied(*self, room_index as int));
                            assert forall|k: int| 1 <= k < room_index && k < self.rooms@.len() implies #[trigger] room_occupied(*self, k) by {
                                assert(room_occupied(head, k));
                            }
                        }
                    }
                    attempt = attempt + 1;
                }
            }
            room_index = room_index + 1;
        }
    }
}


/// Some entity of `g` stands inside room `k`.
pub open spec fn room_occupied(g: Game, k: int) -> bool {
    exists|j: int|
        0 <= j < g.ecs.records().len() && crate::generate_dungeon::in_interior(g.rooms@[k], g.ecs.records()[j].position)
}

/// What spawning keeps true: the game is well formed and only its table
/// grows, the records present at `start` stay in place, `obstacles` holds
/// the positions of all records, and each new record is a monster on a
/// tile of a room other than the first, free at `start` and not shared
/// with another new monster.
pub open spec fn spawn_inv(start: Game, g: Game, obstacles: TileSet) -> bool {
    &&& g.wf()
    &&& obstacles.wf()
    &&& g.player_entity == start.player_entity
    &&& g.rooms@ == start.rooms@
    &&& g.floor_positions@ == start.floor_positions@
    &&& g.floor_number == start.floor_number
    &&& g.player_turns_until_passive_healing == start.player_turns_until_passive_healing
    &&& g.player_facing_direction == start.player_facing_direction
    &&& g.actor_queue == start.actor_queue
    &&& g.player_inventory == start.player_inventory
    &&& g.animation_queue == start.animation_queue
    &&& g.ecs.records().len() >= start.ecs.records().len()
    &&& g.ecs.next_id() >= start.ecs.next_id()
    &&& forall|i: int| 0 <= i < start.ecs.records().len() ==> #[trigger] g.ecs.records()[i] == start.ecs.records()[i]
    &&& forall|p: PositionComponent| #[trigger] obstacles@.contains(p) <==> exists|j: int| 0 <= j < g.ecs.records().len() && g.ecs.records()[j].position == p
    &&& forall|i: int|
        start.ecs.records().len() <= i < g.ecs.records().len() ==> {
            let r = #[trigger] g.ecs.records()[i];
            &&& r.ai is Some
            &&& r.staircase is None
            &&& r.name@ != "Wall"@
            &&& r.entity.id >= start.ecs.next_id()
            &&& !start.ecs.occupied(r.position)
            &&& exists|k: int| 1 <= k < g.rooms@.len() && crate::generate_dungeon::in_interior(#[trigger] g.rooms@[k], r.position)
        }
    &&& forall|i: int, j: int|
        start.ecs.records().len() <= i < j < g.ecs.records().len() ==> #[trigger] g.ecs.records()[i].position != #[trigger] g.ecs.records()[j].position
}

impl Game {
    fn place_enemy(&mut self, p: PositionComponent, obstacles: &mut TileSet, start: Ghost<Game>, room_index: Ghost<int>)
        requires
            spawn_inv(start@, *old(self), *old(obstacles)),
            1 <= room_index@ < old(self).rooms@.len(),
            crate::generate_dungeon::in_interior(old(self).rooms@[room_index@], p),
            crate::generate_dungeon::room_in_bounds(old(self).rooms@[room_index@]),
            !old(obstacles)@.contains(p),
        ensures
            spawn_inv(start@, *final(self), *final(obstacles)),
            final(self).ecs.records().drop_last() == old(self).ecs.records(),
            final(self).ecs.records().len() == old(self).ecs.records().len() + 1,
            final(self).ecs.records().last().position == p,
            final(self).ecs.records().last().ai is Some,
            final(obstacles)@ == old(obstacles)@.insert(p),
    {
        let ghost before = *self;
        let ghost ob = obstacles@;
        crate::entities::create_random_enemy(p, self);
        obstacles.insert(p);
        proof {
            let r = self.ecs.records().last();
            assert(self.ecs.records() =~= before.ecs.records().push(r));
            lemma_spawn_obstacles(before.ecs.records(), r, ob);
            lemma_spawn_distinct(start@.ecs.records().len() as int, before.ecs.records(), r, ob);
            lemma_spawn_new(start@, before, r, ob, room_index@);
        }
    }
}

/// Positions of a table after one more record, seen as a set.
proof fn lemma_spawn_obstacles(rs: Seq<EntityRecord>, r: EntityRecord, ob: Set<PositionComponent>)
    requires
        forall|p: PositionComponent| #[trigger] ob.contains(p) <==> exists|j: int| 0 <= j < rs.len() && rs[j].position == p,
    ensures
        forall|p: PositionComponent| #[trigger] ob.insert(r.position).contains(p) <==> exists|j: int|
            0 <= j < rs.push(r).len() && rs.push(r)[j].position == p,
{
    let ns = rs.push(r);
    assert forall|p: PositionComponent| #[trigger] ob.insert(r.position).contains(p) <==> exists|j: int|
        0 <= j < ns.len() && ns[j].position == p by {
        if p == r.position {
            assert(ns[rs.len() as int].position == p);
        }
        if exists|j: int| 0 <= j < ns.len() && ns[j].position == p {
            let j = choose|j: int| 0 <= j < ns.len() && ns[j].position == p;
            if j < rs.len() {
                assert(rs[j].position == p);
            }
        }
        if exists|j: int| 0 <= j < rs.len() && rs[j].position == p {
            let j = choose|j: int| 0 <= j < rs.len() && rs[j].position == p;
            assert(ns[j].position == p);
        }
    }
}

/// A record on a free tile keeps the new records on distinct tiles.
proof fn lemma_spawn_distinct(from: int, rs: Seq<EntityRecord>, r: EntityRecord, ob: Set<PositionComponent>)
    requires
        0 <= from <= rs.len(),
        forall|p: PositionComponent| #[trigger] ob.contains(p) <==> exists|j: int| 0 <= j < rs.len() && rs[j].position == p,
        !ob.contains(r.position),
        forall|i: int, j: int| from <= i < j < rs.len() ==> #[trigger] rs[i].position != #[trigger] rs[j].position,
    ensures
        forall|i: int, j: int|
            from <= i < j < rs.push(r).len() ==> #[trigger] rs.push(r)[i].position != #[trigger] rs.push(r)[j].position,
{
    let ns = rs.push(r);
    assert forall|i: int, j: int| from <= i < j < ns.len() implies #[trigger] ns[i].position != #[trigger] ns[j].position by {
        assert(ns[i] == rs[i]);
        if j < rs.len() {
            assert(ns[j] == rs[j]);
        } else {
            if rs[i].position == r.position {
                assert(ob.contains(r.position));
            }
        }
    }
}

/// A monster placed on a free tile of a room other than the first keeps the
/// spawning invariant's description of the new records.
proof fn lemma_spawn_new(start: Game, before: Game, r: EntityRecord, ob: Set<PositionComponent>, k: int)
    requires
        before.ecs.records().len() >= start.ecs.records().len(),
        forall|i: int| 0 <= i < start.ecs.records().len() ==> #[trigger] before.ecs.records()[i] == start.ecs.records()[i],
        forall|p: PositionComponent| #[trigger] ob.contains(p) <==> exists|j: int|
            0 <= j < before.ecs.records().len() && before.ecs.records()[j].position == p,
        !ob.contains(r.position),
        r.ai is Some,
        1 <= k < before.rooms@.len(),
        crate::generate_dungeon::in_interior(before.rooms@[k], r.position),
        forall|i: int|
            start.ecs.records().len() <= i < before.ecs.records().len() ==> {
                let q = #[trigger] before.ecs.records()[i];
                &&& q.ai is Some
                &&& !start.ecs.occupied(q.position)
                &&& exists|k: int| 1 <= k < before.rooms@.len() && crate::generate_dungeon::in_interior(#[trigger] before.rooms@[k], q.position)
            },
    ensures
        forall|i: int|
            start.ecs.records().len() <= i < before.ecs.records().push(r).len() ==> {
                let q = #[trigger] before.ecs.records().push(r)[i];
                &&& q.ai is Some
                &&& !start.ecs.occupied(q.position)
                &&& exists|k: int| 1 <= k < before.rooms@.len() && crate::generate_dungeon::in_interior(#[trigger] before.rooms@[k], q.position)
            },
{
    let ns = before.ecs.records().push(r);
    assert(!start.ecs.occupied(r.position)) by {
        if start.ecs.occupied(r.position) {
            let j = choose|j: int| 0 <= j < start.ecs.records().len() && #[trigger] start.ecs.records()[j].position == r.position;
            assert(before.ecs.records()[j].position == r.position);
        }
    }
    assert forall|i: int| start.ecs.records().len() <= i < ns.len() implies {
        let q = #[trigger] ns[i];
        &&& q.ai is Some
        &&& !start.ecs.occupied(q.position)
        &&& exists|k: int| 1 <= k < before.rooms@.len() && crate::generate_dungeon::in_interior(#[trigger] before.rooms@[k], q.position)
    } by {
        if i < before.ecs.records().len() {
            assert(ns[i] == before.ecs.records()[i]);
        } else {
            assert(ns[i] == r);
            assert(crate::generate_dungeon::in_interior(before.rooms@[k], r.position));
        }
    }
}

} // verus!
