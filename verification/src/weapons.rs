//! The weapons of the dungeon's first layer: what each does when used, how
//! each is made, and how one is drawn for a monster to carry.

use crate::attack::{attack_done, attack_reaches, damage, damage_done, needs_position, position_of, try_attack};
use crate::data::{Attackable, Counter, Direction, Item, ItemResult, ItemUse, Name, Position, Rarity, Sprite};
use crate::items::{find_target, strike_target};
use crate::level::{
    bare, index_of_spec, lemma_index_unique, near, record_of, step_taken, try_move, Level, LevelRecord,
};
use crate::rng::{choose_item, gen_ratio};
use crate::world::Entity;
use rand_pcg::Pcg64;
use vstd::prelude::*;

verus! {

/// The direction `user` faces.
pub open spec fn facing_of(l: Level, user: Entity) -> Direction {
    record_of(l.records@, user).unwrap().player.unwrap().facing_direction
}

/// Whom a strike of `user` with range `min..=max` hits, if anyone (see
/// `items::strike_target`).
pub open spec fn struck_entity(l: Level, user: Entity, min: u32, max: u32) -> Option<Entity> {
    match strike_target(l, user, min, max) {
        Some(j) => Some(l.records@[j].entity),
        None => None,
    }
}

/// `a + b`, or the largest `u32` when that is too large.
pub open spec fn sat_add(a: u32, b: u32) -> u32 {
    if a + b > u32::MAX {
        u32::MAX
    } else {
        (a + b) as u32
    }
}

/// `l1` is `l0` with the record of `e` replaced by `r`.
pub open spec fn record_set(l0: Level, l1: Level, e: Entity, r: LevelRecord) -> bool {
    &&& l1 == (Level { records: l1.records, ..l0 })
    &&& l1.records@ == l0.records@.update(index_of_spec(l0.records@, e).unwrap(), r)
}

/// `l1` is `l0` with `e`, while it has health, kept from attacking for two
/// more turns.
pub open spec fn kept_from_attacking(l0: Level, l1: Level, e: Entity) -> bool {
    match record_of(l0.records@, e) {
        Some(r) => match r.attackable {
            Some(a) => record_set(
                l0,
                l1,
                e,
                LevelRecord {
                    attackable: Some(Attackable { cant_attack_turns: sat_add(a.cant_attack_turns, 2), ..a }),
                    ..r
                },
            ),
            None => l1 == l0,
        },
        None => l1 == l0,
    }
}

/// `l1` is `l0` with `e`, while it has health, six blight stacks worse.
pub open spec fn blighted_more(l0: Level, l1: Level, e: Entity) -> bool {
    match record_of(l0.records@, e) {
        Some(r) => match r.attackable {
            Some(a) => record_set(
                l0,
                l1,
                e,
                LevelRecord { attackable: Some(Attackable { blight_stacks: sat_add(a.blight_stacks, 6), ..a }), ..r },
            ),
            None => l1 == l0,
        },
        None => l1 == l0,
    }
}

/// `l1` is `l0` with the count kept on `item`, while it has one, one
/// higher.
pub open spec fn count_raised(l0: Level, l1: Level, item: Entity) -> bool {
    match record_of(l0.records@, item) {
        Some(r) => match r.counter {
            Some(c) => record_set(l0, l1, item, LevelRecord { counter: Some(Counter(sat_add(c.0, 1))), ..r }),
            None => l1 == l0,
        },
        None => l1 == l0,
    }
}

/// The survivor `e` of a Twister Staff's strike, from `l0`: when it has a
/// position it is pushed a tile along `d` (reaching `pushed`; see
/// `level::step_taken`), and, when it cannot be, takes two more damage
/// from `user` (see `attack::damage_done`) while it has health.
pub open spec fn twisted(l0: Level, pushed: Level, l1: Level, user: Entity, e: Entity, d: Direction) -> bool {
    match record_of(l0.records@, e) {
        Some(r) => if r.position is Some {
            exists|ok: bool|
                #[trigger] step_taken(l0, pushed, e, d, ok) && if ok {
                    l1 == pushed
                } else if r.attackable is Some {
                    exists|res: (bool, u32)| #[trigger] damage_done(pushed, l1, 2, false, Some(user), e, res)
                } else {
                    l1 == pushed
                }
        } else {
            pushed == l0 && l1 == l0
        },
        None => pushed == l0 && l1 == l0,
    }
}

/// A Twister Staff's use at `t` from `l0` to `l1`, through `hit` (after the
/// strike for eight, `died` telling whether `t` died) and `pushed`.
pub open spec fn twister_via(
    l0: Level,
    hit: Level,
    died: bool,
    pushed: Level,
    l1: Level,
    user: Entity,
    t: Entity,
) -> bool {
    &&& attack_done(l0, hit, 8, user, t, died)
    &&& if died {
        pushed == hit && l1 == hit
    } else {
        twisted(hit, pushed, l1, user, t, facing_of(l0, user))
    }
}

/// The count kept on `item` in `l`.
pub open spec fn count_of(l: Level, item: Entity) -> u32 {
    record_of(l.records@, item).unwrap().counter.unwrap().0
}

/// A Jump Saber's use by `user` from `l0` to `l1`, `target` being whom it
/// strikes two tiles ahead, if anyone: the user steps a tile ahead (see `level::step_taken`)
/// and, when it did, strikes them for eleven if they are now beside it.
pub open spec fn jump_saber_used(l0: Level, l1: Level, user: Entity, target: Option<Entity>, r: ItemResult) -> bool {
    match target {
        Some(t) => exists|moved: Level, ok: bool|
            #[trigger] step_taken(l0, moved, user, facing_of(l0, user), ok) && if ok {
                &&& r.should_end_turn == attack_reaches(
                    position_of(moved, user).unwrap(),
                    position_of(moved, t).unwrap(),
                    1,
                    1,
                )
                &&& r.should_end_turn ==> exists|died: bool| #[trigger] attack_done(moved, l1, 11, user, t, died)
                &&& !r.should_end_turn ==> l1 == moved
            } else {
                l1 == l0 && !r.should_end_turn
            },
        None => l1 == l0 && !r.should_end_turn,
    }
}

/// A Twister Staff's use by `user` from `l0` to `l1`: a strike for eight at
/// `target`, the one within two tiles ahead, then the push (see
/// `twister_via`).
pub open spec fn twister_staff_used(l0: Level, l1: Level, user: Entity, target: Option<Entity>, r: ItemResult) -> bool {
    match target {
        Some(t) => r.should_end_turn && exists|hit: Level, died: bool, pushed: Level|
            #[trigger] twister_via(l0, hit, died, pushed, l1, user, t),
        None => l1 == l0 && !r.should_end_turn,
    }
}

/// An Edge of Ebony's use by `user` from `l0` to `l1`: a strike for ten at
/// `target`, the one on the next tile ahead; a survivor may be kept from attacking (see
/// `kept_from_attacking`).
pub open spec fn edge_of_ebony_used(l0: Level, l1: Level, user: Entity, target: Option<Entity>, r: ItemResult) -> bool {
    match target {
        Some(t) => r.should_end_turn && exists|hit: Level, died: bool|
            #[trigger] attack_done(l0, hit, 10, user, t, died) && if died {
                l1 == hit
            } else {
                l1 == hit || kept_from_attacking(hit, l1, t)
            },
        None => l1 == l0 && !r.should_end_turn,
    }
}

/// A Blight Bow's use by `user` from `l0` to `l1`: a strike for four at
/// `target`, the one within two tiles ahead; a survivor is blighted (see `blighted_more`).
pub open spec fn blight_bow_used(l0: Level, l1: Level, user: Entity, target: Option<Entity>, r: ItemResult) -> bool {
    match target {
        Some(t) => r.should_end_turn && exists|hit: Level, died: bool|
            #[trigger] attack_done(l0, hit, 4, user, t, died) && if died {
                l1 == hit
            } else {
                blighted_more(hit, l1, t)
            },
        None => l1 == l0 && !r.should_end_turn,
    }
}

/// An Improvised Spellbook's use by `user` from `l0` to `l1`: a strike for
/// `spell_damage` at `target`, the one within three tiles ahead.
pub open spec fn spellbook_used(l0: Level, l1: Level, user: Entity, spell_damage: u32, target: Option<Entity>, r: ItemResult) -> bool {
    match target {
        Some(t) => r.should_end_turn && exists|died: bool| #[trigger] attack_done(l0, l1, spell_damage, user, t, died),
        None => l1 == l0 && !r.should_end_turn,
    }
}

/// A Netherbane's (the record `item`) use by `user` from `l0` to `l1`: a
/// strike for its count at `target`, the one on the next tile ahead; a
/// kill raises the count (see `count_raised`).
pub open spec fn netherbane_used(l0: Level, l1: Level, item: Entity, user: Entity, target: Option<Entity>, r: ItemResult) -> bool {
    match target {
        Some(t) => r.should_end_turn && exists|hit: Level, died: bool|
            #[trigger] attack_done(l0, hit, count_of(l0, item), user, t, died) && if died {
                count_raised(hit, l1, item)
            } else {
                l1 == hit
            },
        None => l1 == l0 && !r.should_end_turn,
    }
}

/// `l1` and `r` are what using the weapon `kind` (the record `item`) for
/// `user` on `l0` gives; `spell_damage` is the damage drawn for an
/// Improvised Spellbook. No weapon is used up, and the turn ends exactly
/// when a blow is dealt; with no one to strike nothing happens.
pub open spec fn weapon_used(
    kind: ItemUse,
    item: Entity,
    user: Entity,
    spell_damage: u32,
    l0: Level,
    l1: Level,
    r: ItemResult,
) -> bool {
    &&& l1.wf()
    &&& !r.should_consume_item
    &&& match kind {
        ItemUse::JumpSaber => jump_saber_used(l0, l1, user, struck_entity(l0, user, 2, 2), r),
        ItemUse::TwisterStaff => twister_staff_used(l0, l1, user, struck_entity(l0, user, 1, 2), r),
        ItemUse::EdgeOfEbony => edge_of_ebony_used(l0, l1, user, struck_entity(l0, user, 1, 1), r),
        ItemUse::BlightBow => blight_bow_used(l0, l1, user, struck_entity(l0, user, 1, 2), r),
        ItemUse::ImprovisedSpellbook => spellbook_used(l0, l1, user, spell_damage, struck_entity(l0, user, 1, 3), r),
        ItemUse::Netherbane => netherbane_used(l0, l1, item, user, struck_entity(l0, user, 1, 1), r),
        _ => true,
    }
}

/// Every Netherbane of `l` keeps a count.
pub open spec fn netherbanes_counted(l: Level) -> bool {
    forall|i: int|
        0 <= i < l.records@.len() && (#[trigger] l.records@[i]).item is Some
            && l.records@[i].item.unwrap().try_use is Netherbane ==> l.records@[i].counter is Some
}

/// Whether `kind` is one of the first layer's weapons.
pub open spec fn is_weapon(kind: ItemUse) -> bool {
    ||| kind is JumpSaber
    ||| kind is TwisterStaff
    ||| kind is EdgeOfEbony
    ||| kind is BlightBow
    ||| kind is ImprovisedSpellbook
    ||| kind is Netherbane
}

fn set_level_record(level: &mut Level, e: Entity, i: usize, r: LevelRecord)
    requires
        old(level).wf(),
        index_of_spec(old(level).records@, e) == Some(i as int),
        r.entity == e,
        r.position == old(level).records@[i as int].position,
    ensures
        final(level).wf(),
        record_set(*old(level), *final(level), e, r),
{
    assert(r.position matches Some(q) ==> near(q));
    level.set_record(i, r);
}

/// Keeps `e`, while it has health, from attacking for two more turns.
fn hold_back(level: &mut Level, e: Entity)
    requires
        old(level).wf(),
    ensures
        final(level).wf(),
        kept_from_attacking(*old(level), *final(level), e),
{
    match level.index_of(e) {
        Some(i) => {
            proof {
                lemma_index_unique(level.records@, level.next_id, e, i as int);
            }
            let r = level.records[i];
            match r.attackable {
                Some(a) => {
                    let turns = a.cant_attack_turns.saturating_add(2);
                    set_level_record(
                        level,
                        e,
                        i,
                        LevelRecord { attackable: Some(Attackable { cant_attack_turns: turns, ..a }), ..r },
                    );
                },
                None => {},
            }
        },
        None => {},
    }
}

/// Gives `e`, while it has health, six more blight stacks.
fn blight(level: &mut Level, e: Entity)
    requires
        old(level).wf(),
    ensures
        final(level).wf(),
        blighted_more(*old(level), *final(level), e),
{
    match level.index_of(e) {
        Some(i) => {
            proof {
                lemma_index_unique(level.records@, level.next_id, e, i as int);
            }
            let r = level.records[i];
            match r.attackable {
                Some(a) => {
                    let stacks = a.blight_stacks.saturating_add(6);
                    set_level_record(
                        level,
                        e,
                        i,
                        LevelRecord { attackable: Some(Attackable { blight_stacks: stacks, ..a }), ..r },
                    );
                },
                None => {},
            }
        },
        None => {},
    }
}

/// Raises the count kept on `item`, while it has one.
fn raise_count(level: &mut Level, item: Entity)
    requires
        old(level).wf(),
    ensures
        final(level).wf(),
        count_raised(*old(level), *final(level), item),
{
    match level.index_of(item) {
        Some(i) => {
            proof {
                lemma_index_unique(level.records@, level.next_id, item, i as int);
            }
            let r = level.records[i];
            match r.counter {
                Some(c) => {
                    let n = c.0.saturating_add(1);
                    set_level_record(level, item, i, LevelRecord { counter: Some(Counter(n)), ..r });
                },
                None => {},
            }
        },
        None => {},
    }
}

/// Pushes the survivor `e` of a Twister Staff's strike a tile along `d`
/// (see `twisted`).
fn twist(level: &mut Level, user: Entity, e: Entity, d: Direction)
    requires
        old(level).wf(),
    ensures
        final(level).wf(),
        exists|pushed: Level| #[trigger] twisted(*old(level), pushed, *final(level), user, e, d),
{
    let ghost l0 = *level;
    match level.index_of(e) {
        Some(i) => {
            proof {
                lemma_index_unique(level.records@, level.next_id, e, i as int);
            }
            let r = level.records[i];
            if r.position.is_some() {
                let moved = try_move(e, d, level);
                let ghost pushed = *level;
                if moved.is_err() {
                    if r.attackable.is_some() {
                        let res = damage(2, false, Some(user), e, level);
                        assert(damage_done(pushed, *level, 2, false, Some(user), e, res));
                    }
                }
                assert(step_taken(l0, pushed, e, d, moved is Ok));
                assert(twisted(l0, pushed, *level, user, e, d));
            } else {
                assert(twisted(l0, l0, *level, user, e, d));
            }
        },
        None => {
            assert(twisted(l0, l0, *level, user, e, d));
        },
    }
}

/// The direction `user`, which has a player state, faces.
fn facing(level: &Level, user: Entity) -> (d: Direction)
    requires
        level.wf(),
        record_of(level.records@, user) matches Some(r) && r.player is Some,
    ensures
        d == facing_of(*level, user),
{
    let i = level.index_of(user).unwrap();
    proof {
        lemma_index_unique(level.records@, level.next_id, user, i as int);
    }
    level.records[i].player.unwrap().facing_direction
}

/// Uses a Jump Saber for `user` (see `jump_saber_used`).
fn use_jump_saber(user: Entity, level: &mut Level) -> (r: ItemResult)
    requires
        old(level).wf(),
        position_of(*old(level), user) is Some,
        record_of(old(level).records@, user).unwrap().player is Some,
    ensures
        final(level).wf(),
        !r.should_consume_item,
        jump_saber_used(*old(level), *final(level), user, struck_entity(*old(level), user, 2, 2), r),
{
    let ghost l0 = *level;
    let j = match find_target(level, user, 2, 2) {
        Some(j) => j,
        None => {
            return ItemResult { should_end_turn: false, should_consume_item: false };
        },
    };
    let t = level.records[j].entity;
    assert(struck_entity(l0, user, 2, 2) == Some(t));
    let d = facing(level, user);
    let ui = level.index_of(user).unwrap();
    proof {
        lemma_index_unique(level.records@, level.next_id, user, ui as int);
        lemma_index_unique(level.records@, level.next_id, t, j as int);
    }
    let moved = try_move(user, d, level);
    let ghost lm = *level;
    if moved.is_err() {
        assert(step_taken(l0, lm, user, facing_of(l0, user), false));
        return ItemResult { should_end_turn: false, should_consume_item: false };
    }
    proof {
        assert(lm.records@[j as int] == l0.records@[j as int]);
        lemma_index_unique(lm.records@, lm.next_id, t, j as int);
        lemma_index_unique(lm.records@, lm.next_id, user, ui as int);
    }
    let res = try_attack(11, 1, 1, user, t, level);
    match res {
        Ok(died) => {
            assert(attack_done(lm, *level, 11, user, t, died));
        },
        Err(()) => {},
    }
    assert(step_taken(l0, lm, user, facing_of(l0, user), true));
    ItemResult { should_end_turn: res.is_ok(), should_consume_item: false }
}

/// Uses a Twister Staff for `user` (see `twister_staff_used`).
fn use_twister_staff(user: Entity, level: &mut Level) -> (r: ItemResult)
    requires
        old(level).wf(),
        position_of(*old(level), user) is Some,
        record_of(old(level).records@, user).unwrap().player is Some,
    ensures
        final(level).wf(),
        !r.should_consume_item,
        twister_staff_used(*old(level), *final(level), user, struck_entity(*old(level), user, 1, 2), r),
{
    let ghost l0 = *level;
    let j = match find_target(level, user, 1, 2) {
        Some(j) => j,
        None => {
            return ItemResult { should_end_turn: false, should_consume_item: false };
        },
    };
    let t = level.records[j].entity;
    assert(struck_entity(l0, user, 1, 2) == Some(t));
    let d = facing(level, user);
    let res = try_attack(8, 1, 2, user, t, level);
    let ghost hit = *level;
    match res {
        Ok(false) => {
            twist(level, user, t, d);
            let ghost pushed = choose|pushed: Level| #[trigger] twisted(hit, pushed, *level, user, t, d);
            assert(twister_via(l0, hit, false, pushed, *level, user, t));
        },
        Ok(true) => {
            assert(twister_via(l0, hit, true, hit, *level, user, t));
        },
        Err(()) => {},
    }
    let out = ItemResult { should_end_turn: true, should_consume_item: false };
    proof {
        match struck_entity(l0, user, 1, 2) {
            Some(t2) => {
                assert(t2 == t);
            },
            None => {},
        }
    }
    out
}

/// Uses an Edge of Ebony for `user` (see `edge_of_ebony_used`); whether a
/// survivor is held back is left to chance, one time in five.
fn use_edge_of_ebony(user: Entity, level: &mut Level, rng: &mut Pcg64) -> (r: ItemResult)
    requires
        old(level).wf(),
        position_of(*old(level), user) is Some,
        record_of(old(level).records@, user).unwrap().player is Some,
    ensures
        final(level).wf(),
        !r.should_consume_item,
        edge_of_ebony_used(*old(level), *final(level), user, struck_entity(*old(level), user, 1, 1), r),
{
    let ghost l0 = *level;
    let j = match find_target(level, user, 1, 1) {
        Some(j) => j,
        None => {
            return ItemResult { should_end_turn: false, should_consume_item: false };
        },
    };
    let t = level.records[j].entity;
    assert(struck_entity(l0, user, 1, 1) == Some(t));
    let res = try_attack(10, 1, 1, user, t, level);
    let ghost hit = *level;
    match res {
        Ok(died) => {
            if !died {
                if gen_ratio(rng, 1, 5) {
                    hold_back(level, t);
                }
            }
            assert(attack_done(l0, hit, 10, user, t, died));
        },
        Err(()) => {},
    }
    let out = ItemResult { should_end_turn: true, should_consume_item: false };
    proof {
        match struck_entity(l0, user, 1, 1) {
            Some(t2) => {
                assert(t2 == t);
            },
            None => {},
        }
    }
    out
}

/// Uses a Blight Bow for `user` (see `blight_bow_used`).
fn use_blight_bow(user: Entity, level: &mut Level) -> (r: ItemResult)
    requires
        old(level).wf(),
        position_of(*old(level), user) is Some,
        record_of(old(level).records@, user).unwrap().player is Some,
    ensures
        final(level).wf(),
        !r.should_consume_item,
        blight_bow_used(*old(level), *final(level), user, struck_entity(*old(level), user, 1, 2), r),
{
    let ghost l0 = *level;
    let j = match find_target(level, user, 1, 2) {
        Some(j) => j,
        None => {
            return ItemResult { should_end_turn: false, should_consume_item: false };
        },
    };
    let t = level.records[j].entity;
    assert(struck_entity(l0, user, 1, 2) == Some(t));
    let res = try_attack(4, 1, 2, user, t, level);
    let ghost hit = *level;
    match res {
        Ok(died) => {
            if !died {
                blight(level, t);
            }
            assert(attack_done(l0, hit, 4, user, t, died));
        },
        Err(()) => {},
    }
    let out = ItemResult { should_end_turn: true, should_consume_item: false };
    proof {
        match struck_entity(l0, user, 1, 2) {
            Some(t2) => {
                assert(t2 == t);
            },
            None => {},
        }
    }
    out
}

/// Uses an Improvised Spellbook for `user`, dealing `spell_damage` (see
/// `spellbook_used`).
fn use_spellbook(user: Entity, spell_damage: u32, level: &mut Level) -> (r: ItemResult)
    requires
        old(level).wf(),
        position_of(*old(level), user) is Some,
        record_of(old(level).records@, user).unwrap().player is Some,
    ensures
        final(level).wf(),
        !r.should_consume_item,
        spellbook_used(*old(level), *final(level), user, spell_damage, struck_entity(*old(level), user, 1, 3), r),
{
    let ghost l0 = *level;
    let j = match find_target(level, user, 1, 3) {
        Some(j) => j,
        None => {
            return ItemResult { should_end_turn: false, should_consume_item: false };
        },
    };
    let t = level.records[j].entity;
    assert(struck_entity(l0, user, 1, 3) == Some(t));
    let res = try_attack(spell_damage, 1, 3, user, t, level);
    match res {
        Ok(died) => {
            assert(attack_done(l0, *level, spell_damage, user, t, died));
        },
        Err(()) => {},
    }
    let out = ItemResult { should_end_turn: true, should_consume_item: false };
    proof {
        match struck_entity(l0, user, 1, 3) {
            Some(t2) => {
                assert(t2 == t);
            },
            None => {},
        }
    }
    out
}

/// Uses the Netherbane `item` for `user` (see `netherbane_used`).
fn use_netherbane(item: Entity, user: Entity, level: &mut Level) -> (r: ItemResult)
    requires
        old(level).wf(),
        position_of(*old(level), user) is Some,
        record_of(old(level).records@, user).unwrap().player is Some,
        record_of(old(level).records@, item) matches Some(ir) && ir.counter is Some,
    ensures
        final(level).wf(),
        !r.should_consume_item,
        netherbane_used(*old(level), *final(level), item, user, struck_entity(*old(level), user, 1, 1), r),
{
    let ghost l0 = *level;
    let j = match find_target(level, user, 1, 1) {
        Some(j) => j,
        None => {
            return ItemResult { should_end_turn: false, should_consume_item: false };
        },
    };
    let t = level.records[j].entity;
    assert(struck_entity(l0, user, 1, 1) == Some(t));
    let ii = level.index_of(item).unwrap();
    proof {
        lemma_index_unique(level.records@, level.next_id, item, ii as int);
    }
    let n = level.records[ii].counter.unwrap().0;
    assert(n == count_of(l0, item));
    let res = try_attack(n, 1, 1, user, t, level);
    let ghost hit = *level;
    match res {
        Ok(died) => {
            if died {
                raise_count(level, item);
            }
            assert(attack_done(l0, hit, n, user, t, died));
        },
        Err(()) => {},
    }
    let out = ItemResult { should_end_turn: true, should_consume_item: false };
    proof {
        match struck_entity(l0, user, 1, 1) {
            Some(t2) => {
                assert(t2 == t);
            },
            None => {},
        }
    }
    out
}

/// Uses the weapon `kind` (the record `item`) for `user`, the player (see
/// `weapon_used`): a Jump Saber steps the player a tile ahead and, from
/// there, strikes what stood two tiles ahead for eleven when it is now
/// beside it; the other weapons strike the first one within their range
/// ahead (Twister Staff: eight within two tiles, then the push; Edge of
/// Ebony: ten at the next tile, then, one time in five, the hold; Blight
/// Bow: four within two tiles, then the blight; Improvised Spellbook:
/// `spell_damage` within three tiles; Netherbane: its count at the next
/// tile, raised by a kill).
pub fn use_weapon(
    kind: ItemUse,
    item: Entity,
    user: Entity,
    spell_damage: u32,
    level: &mut Level,
    rng: &mut Pcg64,
) -> (r: ItemResult)
    requires
        old(level).wf(),
        is_weapon(kind),
        position_of(*old(level), user) is Some,
        record_of(old(level).records@, user).unwrap().player is Some,
        kind is Netherbane ==> (record_of(old(level).records@, item) matches Some(ir) && ir.counter is Some),
    ensures
        weapon_used(kind, item, user, spell_damage, *old(level), *final(level), r),
{
    match kind {
        ItemUse::JumpSaber => use_jump_saber(user, level),
        ItemUse::TwisterStaff => use_twister_staff(user, level),
        ItemUse::EdgeOfEbony => use_edge_of_ebony(user, level, rng),
        ItemUse::BlightBow => use_blight_bow(user, level),
        ItemUse::ImprovisedSpellbook => use_spellbook(user, spell_damage, level),
        _ => use_netherbane(item, user, level),
    }
}

/// The record of a weapon named `name` whose use `u` costs `crystals`,
/// drawn with `sprite`, lying on `p` if given, keeping the count `counter`.
pub open spec fn weapon_record(
    e: Entity,
    name: &'static str,
    crystals: u32,
    u: ItemUse,
    sprite: &'static str,
    p: Option<Position>,
    counter: Option<Counter>,
) -> LevelRecord {
    LevelRecord {
        name: Some(Name { text: name, concealed: false }),
        item: Some(Item { crystals_per_use: crystals, try_use: u }),
        sprite: Some(Sprite { id: sprite, double_sized: false, in_foreground: true }),
        position: p,
        counter,
        ..bare(e)
    }
}

fn add_weapon(
    level: &mut Level,
    name: &'static str,
    crystals: u32,
    u: ItemUse,
    sprite: &'static str,
    p: Option<Position>,
    counter: Option<Counter>,
) -> (e: Entity)
    requires
        old(level).wf(),
        old(level).next_id < u64::MAX,
        p matches Some(q) ==> near(q),
    ensures
        final(level).wf(),
        e.id == old(level).next_id,
        crate::class1::added(*old(level), *final(level), weapon_record(e, name, crystals, u, sprite, p, counter)),
{
    level.spawn(
        LevelRecord {
            entity: Entity { id: 0 },
            name: Some(Name::new(name, false)),
            position: p,
            sprite: Some(Sprite::new(sprite)),
            attackable: None,
            player: None,
            staircase: None,
            spawner: None,
            item: Some(Item::new(crystals, u)),
            intangible: None,
            ai: None,
            counter,
        },
    )
}

/// A Jump Saber, free to use.
pub fn create_jump_saber(item_position: Option<Position>, level: &mut Level) -> (e: Entity)
    requires
        old(level).wf(),
        old(level).next_id < u64::MAX,
        item_position matches Some(q) ==> near(q),
    ensures
        final(level).wf(),
        e.id == old(level).next_id,
        crate::class1::added(
            *old(level),
            *final(level),
            weapon_record(e, "Jump Saber", 0, ItemUse::JumpSaber, "jump_saber", item_position, None),
        ),
{
    add_weapon(level, "Jump Saber", 0, ItemUse::JumpSaber, "jump_saber", item_position, None)
}

/// A Twister Staff, ten crystals a use.
pub fn create_twister_staff(item_position: Option<Position>, level: &mut Level) -> (e: Entity)
    requires
        old(level).wf(),
        old(level).next_id < u64::MAX,
        item_position matches Some(q) ==> near(q),
    ensures
        final(level).wf(),
        e.id == old(level).next_id,
        crate::class1::added(
            *old(level),
            *final(level),
            weapon_record(e, "Twister Staff", 10, ItemUse::TwisterStaff, "twister_staff", item_position, None),
        ),
{
    add_weapon(level, "Twister Staff", 10, ItemUse::TwisterStaff, "twister_staff", item_position, None)
}

/// An Edge of Ebony, five crystals a use.
pub fn create_edge_of_ebony(item_position: Option<Position>, level: &mut Level) -> (e: Entity)
    requires
        old(level).wf(),
        old(level).next_id < u64::MAX,
        item_position matches Some(q) ==> near(q),
    ensures
        final(level).wf(),
        e.id == old(level).next_id,
        crate::class1::added(
            *old(level),
            *final(level),
            weapon_record(e, "Edge of Ebony", 5, ItemUse::EdgeOfEbony, "edge_of_ebony", item_position, None),
        ),
{
    add_weapon(level, "Edge of Ebony", 5, ItemUse::EdgeOfEbony, "edge_of_ebony", item_position, None)
}

/// A Blight Bow, eight crystals a use.
pub fn create_blight_bow(item_position: Option<Position>, level: &mut Level) -> (e: Entity)
    requires
        old(level).wf(),
        old(level).next_id < u64::MAX,
        item_position matches Some(q) ==> near(q),
    ensures
        final(level).wf(),
        e.id == old(level).next_id,
        crate::class1::added(
            *old(level),
            *final(level),
            weapon_record(e, "Blight Bow", 8, ItemUse::BlightBow, "blight_bow", item_position, None),
        ),
{
    add_weapon(level, "Blight Bow", 8, ItemUse::BlightBow, "blight_bow", item_position, None)
}

/// An Improvised Spellbook, twenty crystals a use.
pub fn create_improvised_spellbook(item_position: Option<Position>, level: &mut Level) -> (e: Entity)
    requires
        old(level).wf(),
        old(level).next_id < u64::MAX,
        item_position matches Some(q) ==> near(q),
    ensures
        final(level).wf(),
        e.id == old(level).next_id,
        crate::class1::added(
            *old(level),
            *final(level),
            weapon_record(
                e,
                "Improvised Spellbook",
                20,
                ItemUse::ImprovisedSpellbook,
                "improvised_spellbook",
                item_position,
                None,
            ),
        ),
{
    add_weapon(
        level,
        "Improvised Spellbook",
        20,
        ItemUse::ImprovisedSpellbook,
        "improvised_spellbook",
        item_position,
        None,
    )
}

/// A Netherbane, free to use, its count starting at three.
pub fn create_netherbane(item_position: Option<Position>, level: &mut Level) -> (e: Entity)
    requires
        old(level).wf(),
        old(level).next_id < u64::MAX,
        item_position matches Some(q) ==> near(q),
    ensures
        final(level).wf(),
        e.id == old(level).next_id,
        crate::class1::added(
            *old(level),
            *final(level),
            weapon_record(e, "Netherbane", 0, ItemUse::Netherbane, "netherbane", item_position, Some(Counter(3))),
        ),
{
    add_weapon(level, "Netherbane", 0, ItemUse::Netherbane, "netherbane", item_position, Some(Counter(3)))
}

/// The items a monster of the first layer may carry.
#[derive(Debug, Copy, Clone, PartialEq, Eq, Structural)]
pub enum Layer1Item {
    JumpSaber,
    TwisterStaff,
    EdgeOfEbony,
    BlightBow,
    ImprovisedSpellbook,
    /// A random scroll (see `items::create_random_scroll`).
    RandomScroll,
    Netherbane,
}

/// The items a monster of the rarity may carry.
pub open spec fn layer1_choices(rarity: Rarity) -> Set<Layer1Item> {
    match rarity {
        Rarity::Common => set![
            Layer1Item::JumpSaber,
            Layer1Item::TwisterStaff,
            Layer1Item::EdgeOfEbony,
            Layer1Item::BlightBow,
        ],
        Rarity::Uncommon => set![Layer1Item::ImprovisedSpellbook, Layer1Item::RandomScroll],
        Rarity::Rare => set![Layer1Item::Netherbane],
        Rarity::Epic => Set::empty(),
    }
}

/// The item a monster of the rarity carries, if any: a common one carries
/// one one time in eight, an uncommon one one time in four, a rare one
/// always (a Netherbane); which one is left to chance (see
/// `layer1_choices`). There is nothing to draw for an epic one.
pub fn create_random_layer1(rarity: Rarity, rng: &mut Pcg64) -> (r: Option<Layer1Item>)
    requires
        rarity != Rarity::Epic,
    ensures
        r matches Some(k) ==> layer1_choices(rarity).contains(k),
        rarity == Rarity::Rare ==> r == Some(Layer1Item::Netherbane),
{
    let should_generate_item = match rarity {
        Rarity::Common => gen_ratio(rng, 1, 8),
        Rarity::Uncommon => gen_ratio(rng, 1, 4),
        _ => true,
    };
    if !should_generate_item {
        return None;
    }
    match rarity {
        Rarity::Common => {
            let choices = [
                Layer1Item::JumpSaber,
                Layer1Item::TwisterStaff,
                Layer1Item::EdgeOfEbony,
                Layer1Item::BlightBow,
            ];
            let r = choose_item(&choices, rng);
            proof {
                if let Some(k) = r {
                    assert(choices@.contains(k));
                }
            }
            r
        },
        Rarity::Uncommon => {
            let choices = [Layer1Item::ImprovisedSpellbook, Layer1Item::RandomScroll];
            let r = choose_item(&choices, rng);
            proof {
                if let Some(k) = r {
                    assert(choices@.contains(k));
                }
            }
            r
        },
        _ => {
            let choices = [Layer1Item::Netherbane];
            let r = choose_item(&choices, rng);
            proof {
                if let Some(k) = r {
                    assert(choices@.contains(k));
                }
            }
            r
        },
    }
}

} // verus!
