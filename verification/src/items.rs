//! What using an item does: a strike at what stands straight ahead of the
//! player, or the effect of a scroll.

use crate::attack::{attack_done, attack_reaches, attackable_of, damage_done, position_of, try_attack};
use crate::components::abs;
use crate::data::{direction_step, ItemResult, ItemUse, MessageColor, MessageDisplayLength, Position};
use crate::level::{index_of_spec, lemma_index_unique, near, record_of, tile_free, Level, LevelRecord};
use crate::rng::shuffle;
use rand_pcg::Pcg64;
use crate::world::Entity;
use vstd::prelude::*;

verus! {

broadcast use vstd::string::group_string_axioms;

/// `j` is the index of the first record other than `user`'s that has
/// health and stands on a tile `attack_reaches` from `from`, in the
/// direction `(dx, dy)` faced.
pub open spec fn is_strike_target(
    rs: Seq<LevelRecord>,
    user: Entity,
    from: Position,
    dx: int,
    dy: int,
    min: u32,
    max: u32,
    j: int,
) -> bool {
    &&& 0 <= j < rs.len()
    &&& strikable(rs[j], user, from, dx, dy, min, max)
    &&& forall|k: int| 0 <= k < j ==> !strikable(#[trigger] rs[k], user, from, dx, dy, min, max)
}

/// Whether `r` can be struck by `user` from `from` facing `(dx, dy)`: it is
/// someone else with health, straight ahead and within range.
pub open spec fn strikable(r: LevelRecord, user: Entity, from: Position, dx: int, dy: int, min: u32, max: u32) -> bool {
    &&& r.entity != user
    &&& r.attackable is Some
    &&& r.position matches Some(p) && ahead(from, p, dx, dy) && attack_reaches(from, p, min, max)
}

/// Whether `p` lies ahead of `from` along the direction `(dx, dy)`: each
/// coordinate moved, if at all, the way the direction points.
pub open spec fn ahead(from: Position, p: Position, dx: int, dy: int) -> bool {
    &&& (p.x - from.x) * dx >= 0 && (dx == 0 ==> p.x == from.x)
    &&& (p.y - from.y) * dy >= 0 && (dy == 0 ==> p.y == from.y)
}

fn sign_of(v: i32) -> (s: i32)
    ensures
        s == if v > 0 {
            1int
        } else if v < 0 {
            -1int
        } else {
            0int
        },
{
    if v > 0 {
        1
    } else if v < 0 {
        -1
    } else {
        0
    }
}

fn find_strike_target(level: &Level, user: Entity, from: Position, dx: i32, dy: i32, min: u32, max: u32) -> (r:
    Option<usize>)
    requires
        level.wf(),
        near(from),
        -1 <= dx <= 1,
        -1 <= dy <= 1,
    ensures
        r matches Some(j) ==> is_strike_target(level.records@, user, from, dx as int, dy as int, min, max, j as int),
        r is None ==> forall|j: int|
            0 <= j < level.records@.len() ==> !strikable(
                #[trigger] level.records@[j],
                user,
                from,
                dx as int,
                dy as int,
                min,
                max,
            ),
{
    let mut i: usize = 0;
    while i < level.records.len()
        invariant
            level.wf(),
            near(from),
            -1 <= dx <= 1,
            -1 <= dy <= 1,
            i <= level.records@.len(),
            forall|k: int|
                0 <= k < i ==> !strikable(#[trigger] level.records@[k], user, from, dx as int, dy as int, min, max),
        decreases level.records@.len() - i,
    {
        let r = level.records[i];
        match r.position {
            Some(p) => {
                assert(near(level.records@[i as int].position.unwrap()));
                let ddx = p.x as i32 - from.x as i32;
                let ddy = p.y as i32 - from.y as i32;
                let sx = sign_of(ddx);
                let sy = sign_of(ddy);
                let along_x = if dx == 0 {
                    ddx == 0
                } else {
                    sx == 0 || sx == dx
                };
                let along_y = if dy == 0 {
                    ddy == 0
                } else {
                    sy == 0 || sy == dy
                };
                let x_gap: u32 = if ddx < 0 {
                    (-ddx) as u32
                } else {
                    ddx as u32
                };
                let y_gap: u32 = if ddy < 0 {
                    (-ddy) as u32
                } else {
                    ddy as u32
                };
                let reach = (x_gap == 0 || y_gap == 0) && min <= x_gap + y_gap && x_gap + y_gap <= max;
                proof {
                    assert((p.x - from.x) * dx >= 0 <==> along_x || dx == 0) by (nonlinear_arith)
                        requires
                            -1 <= dx <= 1,
                            ddx == p.x - from.x,
                            sx == (if ddx > 0 {
                                1int
                            } else if ddx < 0 {
                                -1int
                            } else {
                                0int
                            }),
                            along_x == (if dx == 0 {
                                ddx == 0
                            } else {
                                sx == 0 || sx == dx
                            }),
                    ;
                    assert((p.y - from.y) * dy >= 0 <==> along_y || dy == 0) by (nonlinear_arith)
                        requires
                            -1 <= dy <= 1,
                            ddy == p.y - from.y,
                            sy == (if ddy > 0 {
                                1int
                            } else if ddy < 0 {
                                -1int
                            } else {
                                0int
                            }),
                            along_y == (if dy == 0 {
                                ddy == 0
                            } else {
                                sy == 0 || sy == dy
                            }),
                    ;
                }
                if r.entity != user && r.attackable.is_some() && along_x && along_y && reach {
                    return Some(i);
                }
            },
            None => {},
        }
        i = i + 1;
    }
    None
}

/// The direction the player faces, as a step.
pub open spec fn facing_step(l: Level, user: Entity) -> (int, int) {
    direction_step(record_of(l.records@, user).unwrap().player.unwrap().facing_direction)
}

/// The target a strike of `user` with range `min..=max` finds, if any.
pub open spec fn strike_target(l: Level, user: Entity, min: u32, max: u32) -> Option<int> {
    let from = position_of(l, user).unwrap();
    let (dx, dy) = facing_step(l, user);
    if exists|j: int| is_strike_target(l.records@, user, from, dx, dy, min, max, j) {
        Some(choose|j: int| is_strike_target(l.records@, user, from, dx, dy, min, max, j))
    } else {
        None
    }
}

/// `l1` is `l0` after the scroll of entanglement: every record but the
/// user's with health and a position within five tiles on both axes of the
/// user cannot attack for eight more turns and cannot move for sixteen
/// more.
pub open spec fn entangled(l0: Level, l1: Level, user: Entity) -> bool {
    let from = position_of(l0, user).unwrap();
    &&& l1.records@.len() == l0.records@.len()
    &&& l1.next_id == l0.next_id
    &&& l1.game_state == l0.game_state
    &&& l1.now_ms == l0.now_ms
    &&& forall|k: int|
        0 <= k < l0.records@.len() ==> #[trigger] l1.records@[k] == {
            let r = l0.records@[k];
            if r.entity != user && r.player is None && r.attackable is Some && (r.position matches Some(p) && abs(
                from.x - p.x,
            ) <= 5 && abs(from.y - p.y) <= 5) {
                let a = r.attackable.unwrap();
                LevelRecord {
                    attackable: Some(
                        crate::data::Attackable {
                            cant_attack_turns: if a.cant_attack_turns + 8 > u32::MAX {
                                u32::MAX
                            } else {
                                (a.cant_attack_turns + 8) as u32
                            },
                            cant_move_turns: if a.cant_move_turns + 16 > u32::MAX {
                                u32::MAX
                            } else {
                                (a.cant_move_turns + 16) as u32
                            },
                            ..a
                        },
                    ),
                    ..r
                }
            } else {
                r
            }
        }
}

/// `l1` is `l0` after the scroll of shadows: every spawner spawns concealed
/// monsters, and every record but the player's with health and a sprite
/// looks concealed.
pub open spec fn shadowed(l0: Level, l1: Level) -> bool {
    &&& l1.records@.len() == l0.records@.len()
    &&& l1.next_id == l0.next_id
    &&& l1.game_state == l0.game_state
    &&& l1.now_ms == l0.now_ms
    &&& forall|k: int|
        0 <= k < l0.records@.len() ==> #[trigger] l1.records@[k] == {
            let r = l0.records@[k];
            let r1 = match r.spawner {
                Some(s) => LevelRecord { spawner: Some(crate::data::Spawner { spawn_concealed: true, ..s }), ..r },
                None => r,
            };
            match r1.sprite {
                Some(sp) => if r1.attackable is Some && r1.player is None {
                    LevelRecord { sprite: Some(crate::data::Sprite { id: "concealed", ..sp }), ..r1 }
                } else {
                    r1
                },
                None => r1,
            }
        }
}

/// Whether a record can be a place to be displaced to: it lies somewhere
/// and is intangible.
pub open spec fn landing(r: LevelRecord) -> bool {
    r.position is Some && r.intangible is Some
}

/// `l1` is `l0` after the scroll of displacement for `user`: either it
/// stays, or it stands on a tile where an intangible record lies and
/// nothing stood in the way.
pub open spec fn displaced(l0: Level, l1: Level, user: Entity) -> bool {
    let i = index_of_spec(l0.records@, user).unwrap();
    &&& l1.next_id == l0.next_id
    &&& l1.game_state == l0.game_state
    &&& l1.now_ms == l0.now_ms
    &&& (l1.records@ == l0.records@ || exists|j: int|
        0 <= j < l0.records@.len() && landing(#[trigger] l0.records@[j]) && tile_free(
            l0.records@,
            l0.records@[j].position.unwrap(),
        ) && l1.records@ == l0.records@.update(
            i,
            LevelRecord { position: l0.records@[j].position, ..l0.records@[i] },
        ))
}

/// Whether two tiles are at most three apart on both axes.
pub open spec fn linked(a: Position, b: Position) -> bool {
    abs(a.x - b.x) <= 3 && abs(a.y - b.y) <= 3
}

/// Whether a record can be struck by lightning from `from`: it has health
/// and stands somewhere other than `from`.
pub open spec fn chargeable(r: LevelRecord, from: Position) -> bool {
    r.attackable is Some && r.position is Some && r.position != Some(from)
}

/// Whether record `i` can be struck from `from` and stands within three
/// tiles of `from`.
pub open spec fn first_struck(rs: Seq<LevelRecord>, from: Position, i: int) -> bool {
    0 <= i < rs.len() && chargeable(rs[i], from) && linked(from, rs[i].position.unwrap())
}

/// The records reached by lightning from `from` within `k` links: those
/// that can be struck and stand within three tiles of `from`, or of a
/// record reached within fewer links.
pub open spec fn reached_set(rs: Seq<LevelRecord>, from: Position, k: nat) -> Set<int>
    decreases k,
{
    if k == 0 {
        Set::new(|i: int| first_struck(rs, from, i))
    } else {
        let prev = reached_set(rs, from, (k - 1) as nat);
        Set::new(
            |i: int|
                prev.contains(i) || (0 <= i < rs.len() && chargeable(rs[i], from) && exists|j: int|
                    #[trigger] prev.contains(j) && linked(rs[j].position.unwrap(), rs[i].position.unwrap())),
        )
    }
}

/// Record `i` is reached by lightning from `from` within `k` links (see
/// `reached_set`).
pub open spec fn reached(rs: Seq<LevelRecord>, from: Position, i: int, k: nat) -> bool {
    reached_set(rs, from, k).contains(i)
}

proof fn lemma_reached_valid(rs: Seq<LevelRecord>, from: Position, i: int, k: nat)
    requires
        reached(rs, from, i, k),
    ensures
        0 <= i < rs.len(),
        chargeable(rs[i], from),
    decreases k,
{
    if k > 0 {
        let prev = reached_set(rs, from, (k - 1) as nat);
        if prev.contains(i) {
            lemma_reached_valid(rs, from, i, (k - 1) as nat);
        }
    }
}

proof fn lemma_reached_step(rs: Seq<LevelRecord>, from: Position, i: int, k: nat)
    ensures
        reached(rs, from, i, k + 1) == (0 <= i < rs.len() && chargeable(rs[i], from) && (reached(rs, from, i, k)
            || exists|j: int| #[trigger] reached(rs, from, j, k) && linked(rs[j].position.unwrap(), rs[i].position.unwrap()))),
{
    let k1 = k + 1;
    assert((k1 - 1) as nat == k);
    let prev = reached_set(rs, from, k);
    assert(reached_set(rs, from, k1).contains(i) == (prev.contains(i) || (0 <= i < rs.len() && chargeable(rs[i], from)
        && exists|j: int| #[trigger] prev.contains(j) && linked(rs[j].position.unwrap(), rs[i].position.unwrap()))));
    if reached(rs, from, i, k) {
        lemma_reached_valid(rs, from, i, k);
    }
    if exists|j: int| #[trigger] prev.contains(j) && linked(rs[j].position.unwrap(), rs[i].position.unwrap()) {
        let j = choose|j: int| #[trigger] prev.contains(j) && linked(rs[j].position.unwrap(), rs[i].position.unwrap());
        assert(reached(rs, from, j, k));
    }
    if exists|j: int| #[trigger] reached(rs, from, j, k) && linked(rs[j].position.unwrap(), rs[i].position.unwrap()) {
        let j = choose|j: int| #[trigger] reached(rs, from, j, k) && linked(rs[j].position.unwrap(), rs[i].position.unwrap());
        assert(prev.contains(j));
    }
}

/// The entities lightning from `from` strikes: those reached within as
/// many links as there are records, in table order.
pub open spec fn lightning_targets(rs: Seq<LevelRecord>, from: Position) -> Set<Entity> {
    Set::new(|e: Entity| exists|i: int| #[trigger] reached(rs, from, i, rs.len()) && rs[i].entity == e)
}

/// The index of the strike target of `user` with range `min..=max` (see
/// `strike_target`): someone else with health and a position, within
/// reach.
pub fn find_target(level: &Level, user: Entity, min: u32, max: u32) -> (r: Option<usize>)
    requires
        level.wf(),
        position_of(*level, user) is Some,
        record_of(level.records@, user).unwrap().player is Some,
    ensures
        r is None <==> strike_target(*level, user, min, max) is None,
        r matches Some(j) ==> {
            &&& strike_target(*level, user, min, max) == Some(j as int)
            &&& 0 <= j < level.records@.len()
            &&& level.records@[j as int].entity != user
            &&& level.records@[j as int].attackable is Some
            &&& level.records@[j as int].position is Some
            &&& attack_reaches(
                position_of(*level, user).unwrap(),
                level.records@[j as int].position.unwrap(),
                min,
                max,
            )
            &&& record_of(level.records@, level.records@[j as int].entity) == Some(level.records@[j as int])
        },
{
    let ui = level.index_of(user).unwrap();
    proof {
        lemma_index_unique(level.records@, level.next_id, user, ui as int);
    }
    let urec = level.records[ui];
    let from = urec.position.unwrap();
    assert(near(level.records@[ui as int].position.unwrap()));
    let (dx, dy): (i32, i32) = match urec.player.unwrap().facing_direction {
        crate::data::Direction::Up => (0, 1),
        crate::data::Direction::Down => (0, -1),
        crate::data::Direction::Left => (-1, 0),
        crate::data::Direction::Right => (1, 0),
        crate::data::Direction::UpLeft => (-1, 1),
        crate::data::Direction::DownLeft => (-1, -1),
        crate::data::Direction::DownRight => (1, -1),
        crate::data::Direction::UpRight => (1, 1),
    };
    assert((dx as int, dy as int) == facing_step(*level, user));
    match find_strike_target(level, user, from, dx, dy, min, max) {
        Some(j) => {
            let target = level.records[j].entity;
            proof {
                let c = choose|c: int| is_strike_target(level.records@, user, from, dx as int, dy as int, min, max, c);
                if c < j {
                    assert(!strikable(level.records@[c], user, from, dx as int, dy as int, min, max));
                } else if j < c {
                    assert(!strikable(level.records@[j as int], user, from, dx as int, dy as int, min, max));
                }
                lemma_index_unique(level.records@, level.next_id, target, j as int);
            }
            assert(strike_target(*level, user, min, max) == Some(j as int));
            Some(j)
        },
        None => {
            assert(!exists|j: int| is_strike_target(level.records@, user, from, dx as int, dy as int, min, max, j));
            None
        },
    }
}

/// `l1` and `r` are what using the item `item`, of kind `use_kind`, for
/// `user` on `l0` gives (see `use_item`).
pub open spec fn item_use_done(
    use_kind: ItemUse,
    item: Entity,
    user: Entity,
    spell_damage: u32,
    l0: Level,
    l1: Level,
    r: ItemResult,
) -> bool {
    &&& l1.wf()
    &&& match use_kind {
        ItemUse::Strike { damage, min_range, max_range } => {
            &&& !r.should_consume_item
            &&& r.should_end_turn == (strike_target(l0, user, min_range, max_range) is Some)
            &&& strike_target(l0, user, min_range, max_range) is None ==> l1 == l0
            &&& strike_target(l0, user, min_range, max_range) matches Some(j) ==> exists|died: bool|
                #[trigger] attack_done(l0, l1, damage, user, l0.records@[j].entity, died)
        },
        ItemUse::Shadows => {
            &&& r.should_end_turn && r.should_consume_item
            &&& shadowed(l0, l1)
            &&& l1.message_log@.len() == l0.message_log@.len() + 1
            &&& l1.message_log@.drop_last() == l0.message_log@
            &&& l1.message_log@.last().text@ == "You used a Scroll of Shadows!"@
        },
        ItemUse::Entanglement => {
            &&& r.should_end_turn && r.should_consume_item
            &&& entangled(l0, l1, user)
            &&& l1.message_log@.len() == l0.message_log@.len() + 1
            &&& l1.message_log@.drop_last() == l0.message_log@
            &&& l1.message_log@.last().text@ == "You used a Scroll of Entanglement!"@
        },
        ItemUse::Displacement => {
            &&& r.should_end_turn && r.should_consume_item
            &&& displaced(l0, l1, user)
            &&& l1.message_log@.len() == l0.message_log@.len() + 1
            &&& l1.message_log@.drop_last() == l0.message_log@
            &&& l1.message_log@.last().text@ == "You used a Scroll of Displacement!"@
        },
        ItemUse::Lightning => {
            &&& r.should_end_turn && r.should_consume_item
            &&& exists|announced: Level, order: Seq<Entity>| #[trigger] lightning_via(l0, announced, order, l1, user)
            &&& l1.game_state == l0.game_state
            &&& l1.now_ms == l0.now_ms
            &&& l1.message_log@.len() > l0.message_log@.len()
            &&& l1.message_log@[l0.message_log@.len() as int].text@ == "You used a Scroll of Lightning!"@
            &&& l1.message_log@.subrange(0, l0.message_log@.len() as int) == l0.message_log@
        },
        _ => crate::weapons::weapon_used(use_kind, item, user, spell_damage, l0, l1, r),
    }
}

/// Uses the item `item`, of the kind `use_kind`, for `user` (the player,
/// which has a position and a player state): a strike attacks the strike
/// target (see `strike_target`) and ends the turn when the attack went
/// through; a scroll announces itself, takes effect (see `shadowed`,
/// `entangled`, `displaced` and `strike_lightning`), ends the turn and is
/// used up; a weapon acts as `weapons::use_weapon` says, an Improvised
/// Spellbook dealing `spell_damage`.
pub fn use_item(
    use_kind: ItemUse,
    item: Entity,
    user: Entity,
    spell_damage: u32,
    level: &mut Level,
    rng: &mut Pcg64,
) -> (r: ItemResult)
    requires
        old(level).wf(),
        position_of(*old(level), user) is Some,
        record_of(old(level).records@, user).unwrap().player is Some,
        use_kind is Netherbane ==> (record_of(old(level).records@, item) matches Some(ir) && ir.counter is Some),
    ensures
        item_use_done(use_kind, item, user, spell_damage, *old(level), *final(level), r),
{
    let ui = level.index_of(user).unwrap();
    proof {
        lemma_index_unique(level.records@, level.next_id, user, ui as int);
    }
    let urec = level.records[ui];
    let from = urec.position.unwrap();
    assert(near(level.records@[ui as int].position.unwrap()));
    match use_kind {
        ItemUse::Strike { damage, min_range, max_range } => match find_target(level, user, min_range, max_range) {
            Some(j) => {
                let target = level.records[j].entity;
                let result = try_attack(damage, min_range, max_range, user, target, level);
                ItemResult { should_end_turn: result.is_ok(), should_consume_item: false }
            },
            None => ItemResult { should_end_turn: false, should_consume_item: false },
        },
        ItemUse::Shadows => {
            let now = level.now_ms;
            level.message_log.new_message(
                "You used a Scroll of Shadows!".to_string(),
                MessageColor::White,
                MessageDisplayLength::Medium,
                now,
            );
            let ghost l0 = *old(level);
            let mut k: usize = 0;
            while k < level.records.len()
                invariant
                    level.wf(),
                    level.records@.len() == l0.records@.len(),
                    level.next_id == l0.next_id,
                    level.game_state == l0.game_state,
                    level.now_ms == l0.now_ms,
                    k <= l0.records@.len(),
                    level.message_log@.len() == l0.message_log@.len() + 1,
                    level.message_log@.drop_last() == l0.message_log@,
                    level.message_log@.last().text@ == "You used a Scroll of Shadows!"@,
                    forall|j: int|
                        k <= j < l0.records@.len() ==> #[trigger] level.records@[j] == l0.records@[j],
                    forall|j: int|
                        0 <= j < k ==> #[trigger] level.records@[j] == {
                            let r = l0.records@[j];
                            let r1 = match r.spawner {
                                Some(s) => LevelRecord {
                                    spawner: Some(crate::data::Spawner { spawn_concealed: true, ..s }),
                                    ..r
                                },
                                None => r,
                            };
                            match r1.sprite {
                                Some(sp) => if r1.attackable is Some && r1.player is None {
                                    LevelRecord { sprite: Some(crate::data::Sprite { id: "concealed", ..sp }), ..r1 }
                                } else {
                                    r1
                                },
                                None => r1,
                            }
                        },
                decreases l0.records@.len() - k,
            {
                let r = level.records[k];
                let r1 = match r.spawner {
                    Some(s) => LevelRecord { spawner: Some(crate::data::Spawner { spawn_concealed: true, ..s }), ..r },
                    None => r,
                };
                let r2 = match r1.sprite {
                    Some(sp) => if r1.attackable.is_some() && r1.player.is_none() {
                        LevelRecord { sprite: Some(crate::data::Sprite { id: "concealed", ..sp }), ..r1 }
                    } else {
                        r1
                    },
                    None => r1,
                };
                assert(r.position matches Some(q) ==> near(q));
                level.set_record(k, r2);
                k = k + 1;
            }
            ItemResult { should_end_turn: true, should_consume_item: true }
        },
        ItemUse::Displacement => {
            displace(user, level, rng);
            ItemResult { should_end_turn: true, should_consume_item: true }
        },
        ItemUse::Lightning => {
            strike_lightning(user, level, rng);
            ItemResult { should_end_turn: true, should_consume_item: true }
        },
        ItemUse::Entanglement => {
            let now = level.now_ms;
            level.message_log.new_message(
                "You used a Scroll of Entanglement!".to_string(),
                MessageColor::White,
                MessageDisplayLength::Medium,
                now,
            );
            let ghost l0 = *old(level);
            let mut k: usize = 0;
            while k < level.records.len()
                invariant
                    level.wf(),
                    near(from),
                    from == position_of(l0, user).unwrap(),
                    level.records@.len() == l0.records@.len(),
                    level.next_id == l0.next_id,
                    level.game_state == l0.game_state,
                    level.now_ms == l0.now_ms,
                    k <= l0.records@.len(),
                    level.message_log@.len() == l0.message_log@.len() + 1,
                    level.message_log@.drop_last() == l0.message_log@,
                    level.message_log@.last().text@ == "You used a Scroll of Entanglement!"@,
                    forall|j: int|
                        k <= j < l0.records@.len() ==> #[trigger] level.records@[j] == l0.records@[j],
                    forall|j: int|
                        0 <= j < k ==> #[trigger] level.records@[j] == {
                            let r = l0.records@[j];
                            if r.entity != user && r.player is None && r.attackable is Some && (r.position matches Some(
                                p,
                            ) && abs(from.x - p.x) <= 5 && abs(from.y - p.y) <= 5) {
                                let a = r.attackable.unwrap();
                                LevelRecord {
                                    attackable: Some(
                                        crate::data::Attackable {
                                            cant_attack_turns: if a.cant_attack_turns + 8 > u32::MAX {
                                                u32::MAX
                                            } else {
                                                (a.cant_attack_turns + 8) as u32
                                            },
                                            cant_move_turns: if a.cant_move_turns + 16 > u32::MAX {
                                                u32::MAX
                                            } else {
                                                (a.cant_move_turns + 16) as u32
                                            },
                                            ..a
                                        },
                                    ),
                                    ..r
                                }
                            } else {
                                r
                            }
                        },
                decreases l0.records@.len() - k,
            {
                let r = level.records[k];
                let close = match r.position {
                    Some(p) => {
                        assert(near(level.records@[k as int].position.unwrap()));
                        let gx: i32 = if from.x < p.x {
                            p.x as i32 - from.x as i32
                        } else {
                            from.x as i32 - p.x as i32
                        };
                        let gy: i32 = if from.y < p.y {
                            p.y as i32 - from.y as i32
                        } else {
                            from.y as i32 - p.y as i32
                        };
                        gx <= 5 && gy <= 5
                    },
                    None => false,
                };
                if r.entity != user && r.player.is_none() && close {
                    match r.attackable {
                        Some(a) => {
                            let held_attack = if a.cant_attack_turns <= u32::MAX - 8 {
                                a.cant_attack_turns + 8
                            } else {
                                u32::MAX
                            };
                            let held_move = if a.cant_move_turns <= u32::MAX - 16 {
                                a.cant_move_turns + 16
                            } else {
                                u32::MAX
                            };
                            assert(r.position matches Some(q) ==> near(q));
                            level.set_record(
                                k,
                                LevelRecord {
                                    attackable: Some(
                                        crate::data::Attackable {
                                            cant_attack_turns: held_attack,
                                            cant_move_turns: held_move,
                                            ..a
                                        },
                                    ),
                                    ..r
                                },
                            );
                        },
                        None => {},
                    }
                }
                k = k + 1;
            }
            ItemResult { should_end_turn: true, should_consume_item: true }
        },
        _ => crate::weapons::use_weapon(use_kind, item, user, spell_damage, level, rng),
    }
}

fn displace(user: Entity, level: &mut Level, rng: &mut Pcg64)
    requires
        old(level).wf(),
        position_of(*old(level), user) is Some,
    ensures
        final(level).wf(),
        displaced(*old(level), *final(level), user),
        final(level).message_log@.len() == old(level).message_log@.len() + 1,
        final(level).message_log@.drop_last() == old(level).message_log@,
        final(level).message_log@.last().text@ == "You used a Scroll of Displacement!"@,
{
    let ui = level.index_of(user).unwrap();
    proof {
        lemma_index_unique(level.records@, level.next_id, user, ui as int);
    }
    let now = level.now_ms;
    level.message_log.new_message(
        "You used a Scroll of Displacement!".to_string(),
        MessageColor::White,
        MessageDisplayLength::Medium,
        now,
    );
    let ghost rs = level.records@;
    let mut spots: Vec<usize> = Vec::new();
    let mut i: usize = 0;
    while i < level.records.len()
        invariant
            rs == level.records@,
            i <= rs.len(),
            forall|k: int| 0 <= k < spots@.len() ==> #[trigger] spots@[k] < rs.len() && landing(rs[spots@[k] as int]),
        decreases rs.len() - i,
    {
        if level.records[i].position.is_some() && level.records[i].intangible.is_some() {
            spots.push(i);
        }
        i = i + 1;
    }
    let ghost before = spots@;
    shuffle(&mut spots, rng);
    let ghost l1 = *level;
    assert(l1.records@ == old(level).records@);
    assert(l1.message_log@.drop_last() =~= old(level).message_log@);
    proof {
        broadcast use vstd::seq_lib::group_to_multiset_ensures;

        assert forall|k: int| 0 <= k < spots@.len() implies #[trigger] spots@[k] < rs.len() && landing(
            rs[spots@[k] as int],
        ) by {
            assert(spots@.to_multiset().count(spots@[k]) > 0);
            assert(before.contains(spots@[k]));
        }
    }
    let mut k: usize = 0;
    while k < spots.len()
        invariant
            rs == level.records@,
            level.wf(),
            *level == l1,
            l1.records@ == old(level).records@,
            l1.next_id == old(level).next_id,
            l1.game_state == old(level).game_state,
            l1.now_ms == old(level).now_ms,
            l1.message_log@.len() == old(level).message_log@.len() + 1,
            l1.message_log@.drop_last() == old(level).message_log@,
            l1.message_log@.last().text@ == "You used a Scroll of Displacement!"@,
            ui as int == index_of_spec(old(level).records@, user).unwrap(),
            ui < rs.len(),
            k <= spots@.len(),
            forall|q: int| 0 <= q < spots@.len() ==> #[trigger] spots@[q] < rs.len() && landing(rs[spots@[q] as int]),
        decreases spots@.len() - k,
    {
        let j = spots[k];
        let p = level.records[j].position.unwrap();
        if crate::level::is_tile_free(level, p) {
            let r = level.records[ui];
            assert(near(rs[j as int].position.unwrap()));
            level.set_record(ui, LevelRecord { position: Some(p), ..r });
            assert(landing(rs[j as int]));
            assert(rs[j as int].position == Some(p));
            return;
        }
        k = k + 1;
    }
}

fn lightning_candidates(level: &Level, from: Position) -> (r: Vec<usize>)
    requires
        level.wf(),
    ensures
        forall|k: int| 0 <= k < r@.len() ==> #[trigger] r@[k] < level.records@.len() && chargeable(level.records@[r@[k] as int], from),
        forall|i: int| 0 <= i < level.records@.len() && chargeable(#[trigger] level.records@[i], from) ==> exists|k: int| 0 <= k < r@.len() && r@[k] as int == i,
        forall|a: int, b: int| 0 <= a < b < r@.len() ==> #[trigger] r@[a] < #[trigger] r@[b],
{
    let mut r: Vec<usize> = Vec::new();
    let mut i: usize = 0;
    while i < level.records.len()
        invariant
            i <= level.records@.len(),
            forall|k: int| 0 <= k < r@.len() ==> #[trigger] r@[k] < i && chargeable(level.records@[r@[k] as int], from),
            forall|q: int| 0 <= q < i && chargeable(#[trigger] level.records@[q], from) ==> exists|k: int| 0 <= k < r@.len() && r@[k] as int == q,
            forall|a: int, b: int| 0 <= a < b < r@.len() ==> #[trigger] r@[a] < #[trigger] r@[b],
        decreases level.records@.len() - i,
    {
        let rec = level.records[i];
        let ghost before = r@;
        if rec.attackable.is_some() && rec.position.is_some() && rec.position != Some(from) {
            r.push(i);
            proof {
                assert forall|q: int| 0 <= q < i + 1 && chargeable(#[trigger] level.records@[q], from) implies exists|k: int|
                    0 <= k < r@.len() && r@[k] as int == q by {
                    if q < i {
                        let k = choose|k: int| 0 <= k < before.len() && before[k] as int == q;
                        assert(r@[k] == before[k]);
                    } else {
                        assert(r@[r@.len() - 1] == i);
                    }
                }
            }
        }
        i = i + 1;
    }
    r
}

fn linked_exec(a: Position, b: Position) -> (r: bool)
    requires
        near(a),
        near(b),
    ensures
        r == linked(a, b),
{
    let dx: i32 = if a.x < b.x {
        b.x as i32 - a.x as i32
    } else {
        a.x as i32 - b.x as i32
    };
    let dy: i32 = if a.y < b.y {
        b.y as i32 - a.y as i32
    } else {
        a.y as i32 - b.y as i32
    };
    dx <= 3 && dy <= 3
}

/// The entities lightning from `from` strikes (see `lightning_targets`),
/// in table order.
pub fn find_lightning_targets(level: &Level, from: Position) -> (r: Vec<Entity>)
    requires
        level.wf(),
        near(from),
    ensures
        forall|e: Entity| r@.contains(e) <==> lightning_targets(level.records@, from).contains(e),
{
    let cands = lightning_candidates(level, from);
    let m = cands.len();
    // seen[c] tells whether candidate c is reached within `pass` links.
    let mut seen: Vec<bool> = Vec::new();
    let mut c: usize = 0;
    while c < m
        invariant
            level.wf(),
            near(from),
            m == cands@.len(),
            c <= m,
            seen@.len() == c,
            forall|k: int| 0 <= k < cands@.len() ==> #[trigger] cands@[k] < level.records@.len() && chargeable(level.records@[cands@[k] as int], from),
            forall|q: int| 0 <= q < c ==> #[trigger] seen@[q] == reached(level.records@, from, cands@[q] as int, 0),
        decreases m - c,
    {
        let p = level.records[cands[c]].position.unwrap();
        assert(near(level.records@[cands@[c as int] as int].position.unwrap()));
        seen.push(linked_exec(from, p));
        c = c + 1;
    }
    let n = level.records.len();
    let mut pass: usize = 0;
    while pass < n
        invariant
            level.wf(),
            near(from),
            m == cands@.len(),
            n == level.records@.len(),
            pass <= n,
            seen@.len() == m,
            forall|k: int| 0 <= k < cands@.len() ==> #[trigger] cands@[k] < level.records@.len() && chargeable(level.records@[cands@[k] as int], from),
            forall|i: int| 0 <= i < level.records@.len() && chargeable(#[trigger] level.records@[i], from) ==> exists|k: int| 0 <= k < cands@.len() && cands@[k] as int == i,
            forall|q: int| 0 <= q < m ==> #[trigger] seen@[q] == reached(level.records@, from, cands@[q] as int, pass as nat),
        decreases n - pass,
    {
        let mut next: Vec<bool> = Vec::new();
        let mut c: usize = 0;
        while c < m
            invariant
                level.wf(),
                m == cands@.len(),
                c <= m,
                seen@.len() == m,
                next@.len() == c,
                forall|k: int| 0 <= k < cands@.len() ==> #[trigger] cands@[k] < level.records@.len() && chargeable(level.records@[cands@[k] as int], from),
                forall|i: int| 0 <= i < level.records@.len() && chargeable(#[trigger] level.records@[i], from) ==> exists|k: int| 0 <= k < cands@.len() && cands@[k] as int == i,
                forall|q: int| 0 <= q < m ==> #[trigger] seen@[q] == reached(level.records@, from, cands@[q] as int, pass as nat),
                forall|q: int| 0 <= q < c ==> #[trigger] next@[q] == reached(level.records@, from, cands@[q] as int, (pass + 1) as nat),
            decreases m - c,
        {
            let ic = cands[c];
            let pc = level.records[ic].position.unwrap();
            assert(near(level.records@[ic as int].position.unwrap()));
            let mut hit = seen[c];
            let mut d: usize = 0;
            while d < m && !hit
                invariant
                    level.wf(),
                    m == cands@.len(),
                    d <= m,
                    seen@.len() == m,
                    near(pc),
                    pc == level.records@[ic as int].position.unwrap(),
                    ic < level.records@.len(),
                    forall|k: int| 0 <= k < cands@.len() ==> #[trigger] cands@[k] < level.records@.len() && chargeable(level.records@[cands@[k] as int], from),
                    forall|q: int| 0 <= q < m ==> #[trigger] seen@[q] == reached(level.records@, from, cands@[q] as int, pass as nat),
                    hit ==> reached(level.records@, from, ic as int, pass as nat) || exists|j: int|
                        #[trigger] reached(level.records@, from, j, pass as nat) && linked(level.records@[j].position.unwrap(), pc),
                    !hit ==> !reached(level.records@, from, ic as int, pass as nat) && forall|q: int|
                        0 <= q < d ==> !(seen@[q] && linked(level.records@[cands@[q] as int].position.unwrap(), pc)),
                decreases m - d,
            {
                if seen[d] {
                    let pd = level.records[cands[d]].position.unwrap();
                    assert(near(level.records@[cands@[d as int] as int].position.unwrap()));
                    if linked_exec(pd, pc) {
                        hit = true;
                    }
                }
                d = d + 1;
            }
            proof {
                let i = ic as int;
                let k1 = (pass + 1) as nat;
                assert(chargeable(level.records@[i], from));
                if !hit {
                    assert forall|j: int| #[trigger] reached(level.records@, from, j, pass as nat) implies !linked(
                        level.records@[j].position.unwrap(),
                        pc,
                    ) by {
                        lemma_reached_valid(level.records@, from, j, pass as nat);
                        assert(chargeable(level.records@[j], from));
                        let q = choose|q: int| 0 <= q < cands@.len() && cands@[q] as int == j;
                        assert(seen@[q]);
                        assert(d == m);
                        assert(!(seen@[q] && linked(level.records@[cands@[q] as int].position.unwrap(), pc)));
                    }
                }
                assert((k1 - 1) as nat == pass as nat);
                assert(pc == level.records@[i].position.unwrap());
                assert(0 <= i < level.records@.len());
                lemma_reached_step(level.records@, from, i, pass as nat);
                if hit {
                    if !reached(level.records@, from, i, pass as nat) {
                        let j = choose|j: int|
                            #[trigger] reached(level.records@, from, j, pass as nat) && linked(
                                level.records@[j].position.unwrap(),
                                pc,
                            );
                        assert(reached(level.records@, from, j, (k1 - 1) as nat));
                    }
                    assert(reached(level.records@, from, i, k1));
                } else {
                    assert(!reached(level.records@, from, i, k1));
                }
            }
            next.push(hit);
            c = c + 1;
        }
        seen = next;
        pass = pass + 1;
    }
    let mut r: Vec<Entity> = Vec::new();
    let mut c: usize = 0;
    while c < m
        invariant
            level.wf(),
            m == cands@.len(),
            c <= m,
            seen@.len() == m,
            n == level.records@.len(),
            forall|k: int| 0 <= k < cands@.len() ==> #[trigger] cands@[k] < level.records@.len() && chargeable(level.records@[cands@[k] as int], from),
            forall|i: int| 0 <= i < level.records@.len() && chargeable(#[trigger] level.records@[i], from) ==> exists|k: int| 0 <= k < cands@.len() && cands@[k] as int == i,
            forall|q: int| 0 <= q < m ==> #[trigger] seen@[q] == reached(level.records@, from, cands@[q] as int, n as nat),
            forall|e: Entity| r@.contains(e) <==> exists|q: int| 0 <= q < c && seen@[q] && level.records@[cands@[q] as int].entity == e,
        decreases m - c,
    {
        let ghost before = r@;
        if seen[c] {
            r.push(level.records[cands[c]].entity);
        }
        proof {
            assert forall|e: Entity| r@.contains(e) <==> exists|q: int|
                0 <= q < c + 1 && seen@[q] && level.records@[cands@[q] as int].entity == e by {
                if r@.contains(e) {
                    let x = choose|x: int| 0 <= x < r@.len() && r@[x] == e;
                    if x < before.len() {
                        assert(before[x] == e);
                        assert(before.contains(e));
                    } else {
                        assert(seen@[c as int] && level.records@[cands@[c as int] as int].entity == e);
                    }
                }
                if exists|q: int| 0 <= q < c + 1 && seen@[q] && level.records@[cands@[q] as int].entity == e {
                    let q = choose|q: int| 0 <= q < c + 1 && seen@[q] && level.records@[cands@[q] as int].entity == e;
                    if q < c {
                        assert(before.contains(e));
                        let x = choose|x: int| 0 <= x < before.len() && before[x] == e;
                        assert(r@[x] == e);
                    } else {
                        assert(r@[r@.len() - 1] == e);
                    }
                }
            }
        }
        c = c + 1;
    }
    proof {
        assert forall|e: Entity| r@.contains(e) <==> lightning_targets(level.records@, from).contains(e) by {
            if lightning_targets(level.records@, from).contains(e) {
                let i = choose|i: int| #[trigger] reached(level.records@, from, i, level.records@.len()) && level.records@[i].entity == e;
                lemma_reached_valid(level.records@, from, i, level.records@.len());
                assert(chargeable(level.records@[i], from));
                let q = choose|q: int| 0 <= q < cands@.len() && cands@[q] as int == i;
                assert(seen@[q]);
            }
            if r@.contains(e) {
                let q = choose|q: int| 0 <= q < m && seen@[q] && level.records@[cands@[q] as int].entity == e;
                assert(reached(level.records@, from, cands@[q] as int, level.records@.len()));
            }
        }
    }
    r
}

/// One bolt of a scroll of lightning at `e`, from `l0` to `l1`: nine damage
/// with no attacker (see `attack::damage_done`) while `e` is still there
/// with health and a position; otherwise nothing.
pub open spec fn lightning_hit(l0: Level, l1: Level, e: Entity) -> bool {
    match record_of(l0.records@, e) {
        Some(r) => if r.attackable is Some && r.position is Some {
            exists|res: (bool, u32)| #[trigger] damage_done(l0, l1, 9, false, None, e, res)
        } else {
            l1 == l0
        },
        None => l1 == l0,
    }
}

/// Bolts at every entity of `order` in turn lead from `l0` to `l1` (see
/// `lightning_hit`).
pub open spec fn bolts_struck(l0: Level, l1: Level, order: Seq<Entity>) -> bool {
    exists|levels: Seq<Level>|
        {
            &&& levels.len() == order.len() + 1
            &&& levels[0] == l0
            &&& levels.last() == l1
            &&& forall|k: int| 0 <= k < order.len() ==> #[trigger] lightning_hit(levels[k], levels[k + 1], order[k])
        }
}

/// A scroll of lightning read by `user` from `l0` to `l1`, through the level
/// `announced` (the use told, nothing else changed) and the order `order`
/// of the bolts: one at each entity it strikes (see `lightning_targets`).
pub open spec fn lightning_via(l0: Level, announced: Level, order: Seq<Entity>, l1: Level, user: Entity) -> bool {
    let from = position_of(l0, user).unwrap();
    let told = announced.message_log@.last();
    &&& announced == (Level { message_log: announced.message_log, ..l0 })
    &&& announced.message_log@.len() == l0.message_log@.len() + 1
    &&& announced.message_log@.drop_last() == l0.message_log@
    &&& told.text@ == "You used a Scroll of Lightning!"@
    &&& told.color == MessageColor::White
    &&& told.display_length == MessageDisplayLength::Medium
    &&& told.time_created == l0.now_ms
    &&& forall|e: Entity| order.contains(e) <==> lightning_targets(l0.records@, from).contains(e)
    &&& bolts_struck(announced, l1, order)
}

/// The scroll of lightning: announced, then every entity it strikes (see
/// `find_lightning_targets`), in random order, takes nine damage while it
/// is still there.
fn strike_lightning(user: Entity, level: &mut Level, rng: &mut Pcg64)
    requires
        old(level).wf(),
        position_of(*old(level), user) is Some,
    ensures
        final(level).wf(),
        final(level).game_state == old(level).game_state,
        final(level).now_ms == old(level).now_ms,
        final(level).message_log@.len() > old(level).message_log@.len(),
        final(level).message_log@[old(level).message_log@.len() as int].text@ == "You used a Scroll of Lightning!"@,
        final(level).message_log@.subrange(0, old(level).message_log@.len() as int) == old(level).message_log@,
        exists|announced: Level, order: Seq<Entity>|
            #[trigger] lightning_via(*old(level), announced, order, *final(level), user),
{
    let ui = level.index_of(user).unwrap();
    proof {
        lemma_index_unique(level.records@, level.next_id, user, ui as int);
    }
    let from = level.records[ui].position.unwrap();
    assert(near(level.records@[ui as int].position.unwrap()));
    let now = level.now_ms;
    level.message_log.new_message(
        "You used a Scroll of Lightning!".to_string(),
        MessageColor::White,
        MessageDisplayLength::Medium,
        now,
    );
    let ghost msgs = level.message_log@;
    let ghost announced = *level;
    let mut targets = find_lightning_targets(level, from);
    let ghost found = targets@;
    shuffle(&mut targets, rng);
    proof {
        broadcast use vstd::seq_lib::group_to_multiset_ensures;

        assert(position_of(*old(level), user) == Some(from));
        assert(announced.records@ == old(level).records@);
        assert forall|e: Entity|
            #[trigger] targets@.contains(e) <==> lightning_targets(old(level).records@, from).contains(e) by {
            assert(targets@.to_multiset().count(e) == found.to_multiset().count(e));
            assert(found.contains(e) <==> lightning_targets(announced.records@, from).contains(e));
        }
    }
    let ghost mut levels: Seq<Level> = seq![*level];
    let mut k: usize = 0;
    while k < targets.len()
        invariant
            levels.len() == k + 1,
            levels[0] == announced,
            forall|e: Entity|
                #[trigger] targets@.contains(e) <==> lightning_targets(old(level).records@, from).contains(e),
            levels.last() == *level,
            forall|j: int| 0 <= j < k ==> #[trigger] lightning_hit(levels[j], levels[j + 1], targets@[j]),
            level.wf(),
            level.game_state == old(level).game_state,
            level.now_ms == old(level).now_ms,
            msgs.len() == old(level).message_log@.len() + 1,
            msgs[old(level).message_log@.len() as int].text@ == "You used a Scroll of Lightning!"@,
            msgs.subrange(0, old(level).message_log@.len() as int) == old(level).message_log@,
            level.message_log@.len() >= msgs.len(),
            level.message_log@.subrange(0, msgs.len() as int) == msgs,
            k <= targets@.len(),
        decreases targets@.len() - k,
    {
        let e = targets[k];
        let ghost lk = *level;
        match level.index_of(e) {
            Some(i) => {
                proof {
                    lemma_index_unique(level.records@, level.next_id, e, i as int);
                }
                let r = level.records[i];
                if r.attackable.is_some() && r.position.is_some() {
                    let ghost before = level.message_log@;
                    let res = crate::attack::damage(9, false, None, e, level);
                    assert(damage_done(lk, *level, 9, false, None, e, res));
                    assert(level.message_log@.subrange(0, msgs.len() as int) =~= before.subrange(0, msgs.len() as int));
                }
            },
            None => {},
        }
        assert(lightning_hit(lk, *level, e));
        proof {
            levels = levels.push(*level);
        }
        k = k + 1;
    }
    assert(bolts_struck(announced, *level, targets@));
    assert(lightning_via(*old(level), announced, targets@, *level, user));
    assert(level.message_log@[old(level).message_log@.len() as int] == msgs[old(level).message_log@.len() as int]);
    assert(level.message_log@.subrange(0, old(level).message_log@.len() as int) =~= msgs.subrange(
        0,
        old(level).message_log@.len() as int,
    ));
}

/// The record of an item named `name` (concealed or not) with the use
/// `u`, drawn with `sprite`, lying on `p` if given.
pub open spec fn item_record(
    e: Entity,
    name: &'static str,
    concealed: bool,
    u: ItemUse,
    sprite: &'static str,
    p: Option<Position>,
) -> LevelRecord {
    LevelRecord {
        name: Some(crate::data::Name { text: name, concealed }),
        item: Some(crate::data::Item { crystals_per_use: 0, try_use: u }),
        sprite: Some(crate::data::Sprite { id: sprite, double_sized: false, in_foreground: true }),
        position: p,
        ..crate::level::bare(e)
    }
}

fn add_item(
    level: &mut Level,
    name: &'static str,
    concealed: bool,
    u: ItemUse,
    sprite: &'static str,
    p: Option<Position>,
) -> (e: Entity)
    requires
        old(level).wf(),
        old(level).next_id < u64::MAX,
        p matches Some(q) ==> near(q),
    ensures
        final(level).wf(),
        e.id == old(level).next_id,
        crate::class1::added(*old(level), *final(level), item_record(e, name, concealed, u, sprite, p)),
{
    level.spawn(
        LevelRecord {
            entity: Entity { id: 0 },
            name: Some(crate::data::Name::new(name, concealed)),
            position: p,
            sprite: Some(crate::data::Sprite::new(sprite)),
            attackable: None,
            player: None,
            staircase: None,
            spawner: None,
            item: Some(crate::data::Item::new(0, u)),
            intangible: None,
            ai: None,
            counter: None,
        },
    )
}

/// A Makeshift Dagger: a strike for eight at the next tile.
pub fn create_makeshift_dagger(item_position: Option<Position>, level: &mut Level) -> (e: Entity)
    requires
        old(level).wf(),
        old(level).next_id < u64::MAX,
        item_position matches Some(q) ==> near(q),
    ensures
        final(level).wf(),
        e.id == old(level).next_id,
        crate::class1::added(
            *old(level),
            *final(level),
            item_record(
                e,
                "Makeshift Dagger",
                false,
                ItemUse::Strike { damage: 8, min_range: 1, max_range: 1 },
                "makeshift_dagger",
                item_position,
            ),
        ),
{
    add_item(
        level,
        "Makeshift Dagger",
        false,
        ItemUse::Strike { damage: 8, min_range: 1, max_range: 1 },
        "makeshift_dagger",
        item_position,
    )
}

/// A Scroll of Shadows, drawn in its colour and named only once identified.
pub fn create_scroll_of_shadows(item_position: Option<Position>, scrolls: &crate::data::ScrollInfo, level: &mut Level) -> (e:
    Entity)
    requires
        old(level).wf(),
        old(level).next_id < u64::MAX,
        item_position matches Some(q) ==> near(q),
    ensures
        final(level).wf(),
        e.id == old(level).next_id,
        crate::class1::added(
            *old(level),
            *final(level),
            item_record(
                e,
                "Scroll of Shadows",
                !scrolls.scroll_of_shadows_identified,
                ItemUse::Shadows,
                scrolls.scroll_of_shadows_sprite,
                item_position,
            ),
        ),
{
    add_item(
        level,
        "Scroll of Shadows",
        !scrolls.scroll_of_shadows_identified,
        ItemUse::Shadows,
        scrolls.scroll_of_shadows_sprite,
        item_position,
    )
}

/// A Scroll of Displacement, drawn in its colour and named only once
/// identified.
pub fn create_scroll_of_displacement(
    item_position: Option<Position>,
    scrolls: &crate::data::ScrollInfo,
    level: &mut Level,
) -> (e: Entity)
    requires
        old(level).wf(),
        old(level).next_id < u64::MAX,
        item_position matches Some(q) ==> near(q),
    ensures
        final(level).wf(),
        e.id == old(level).next_id,
        crate::class1::added(
            *old(level),
            *final(level),
            item_record(
                e,
                "Scroll of Displacement",
                !scrolls.scroll_of_displacement_identified,
                ItemUse::Displacement,
                scrolls.scroll_of_displacement_sprite,
                item_position,
            ),
        ),
{
    add_item(
        level,
        "Scroll of Displacement",
        !scrolls.scroll_of_displacement_identified,
        ItemUse::Displacement,
        scrolls.scroll_of_displacement_sprite,
        item_position,
    )
}

/// A Scroll of Entanglement, drawn in its colour and named only once
/// identified.
pub fn create_scroll_of_entanglement(
    item_position: Option<Position>,
    scrolls: &crate::data::ScrollInfo,
    level: &mut Level,
) -> (e: Entity)
    requires
        old(level).wf(),
        old(level).next_id < u64::MAX,
        item_position matches Some(q) ==> near(q),
    ensures
        final(level).wf(),
        e.id == old(level).next_id,
        crate::class1::added(
            *old(level),
            *final(level),
            item_record(
                e,
                "Scroll of Entanglement",
                !scrolls.scroll_of_entanglement_identified,
                ItemUse::Entanglement,
                scrolls.scroll_of_entanglement_sprite,
                item_position,
            ),
        ),
{
    add_item(
        level,
        "Scroll of Entanglement",
        !scrolls.scroll_of_entanglement_identified,
        ItemUse::Entanglement,
        scrolls.scroll_of_entanglement_sprite,
        item_position,
    )
}

/// A Scroll of Lightning, drawn in its colour and named only once
/// identified.
pub fn create_scroll_of_lightning(item_position: Option<Position>, scrolls: &crate::data::ScrollInfo, level: &mut Level) -> (e:
    Entity)
    requires
        old(level).wf(),
        old(level).next_id < u64::MAX,
        item_position matches Some(q) ==> near(q),
    ensures
        final(level).wf(),
        e.id == old(level).next_id,
        crate::class1::added(
            *old(level),
            *final(level),
            item_record(
                e,
                "Scroll of Lightning",
                !scrolls.scroll_of_lightning_identified,
                ItemUse::Lightning,
                scrolls.scroll_of_lightning_sprite,
                item_position,
            ),
        ),
{
    add_item(
        level,
        "Scroll of Lightning",
        !scrolls.scroll_of_lightning_identified,
        ItemUse::Lightning,
        scrolls.scroll_of_lightning_sprite,
        item_position,
    )
}

/// The kind of scroll an item use stands for, if it is one.
pub open spec fn is_scroll(u: ItemUse) -> bool {
    u is Shadows || u is Displacement || u is Entanglement || u is Lightning
}

/// A random good scroll (displacement, entanglement or lightning); which
/// one is left to chance.
pub fn create_random_good_scroll(
    item_position: Option<Position>,
    scrolls: &crate::data::ScrollInfo,
    level: &mut Level,
    rng: &mut Pcg64,
) -> (e: Entity)
    requires
        old(level).wf(),
        old(level).next_id < u64::MAX,
        item_position matches Some(q) ==> near(q),
    ensures
        final(level).wf(),
        e.id == old(level).next_id,
        exists|u: ItemUse, name: &'static str, concealed: bool, sprite: &'static str|
            (u is Displacement || u is Entanglement || u is Lightning) && #[trigger] crate::class1::added(
                *old(level),
                *final(level),
                item_record(e, name, concealed, u, sprite, item_position),
            ),
{
    let k = crate::rng::gen_range_usize(rng, 0, 3);
    if k == 0 {
        create_scroll_of_displacement(item_position, scrolls, level)
    } else if k == 1 {
        create_scroll_of_entanglement(item_position, scrolls, level)
    } else {
        create_scroll_of_lightning(item_position, scrolls, level)
    }
}

/// A bad scroll: a Scroll of Shadows.
pub fn create_bad_scroll(item_position: Option<Position>, scrolls: &crate::data::ScrollInfo, level: &mut Level) -> (e: Entity)
    requires
        old(level).wf(),
        old(level).next_id < u64::MAX,
        item_position matches Some(q) ==> near(q),
    ensures
        final(level).wf(),
        e.id == old(level).next_id,
        crate::class1::added(
            *old(level),
            *final(level),
            item_record(
                e,
                "Scroll of Shadows",
                !scrolls.scroll_of_shadows_identified,
                ItemUse::Shadows,
                scrolls.scroll_of_shadows_sprite,
                item_position,
            ),
        ),
{
    create_scroll_of_shadows(item_position, scrolls, level)
}

/// A random scroll: good or bad, even odds.
pub fn create_random_scroll(
    item_position: Option<Position>,
    scrolls: &crate::data::ScrollInfo,
    level: &mut Level,
    rng: &mut Pcg64,
) -> (e: Entity)
    requires
        old(level).wf(),
        old(level).next_id < u64::MAX,
        item_position matches Some(q) ==> near(q),
    ensures
        final(level).wf(),
        e.id == old(level).next_id,
        exists|u: ItemUse, name: &'static str, concealed: bool, sprite: &'static str|
            is_scroll(u) && #[trigger] crate::class1::added(
                *old(level),
                *final(level),
                item_record(e, name, concealed, u, sprite, item_position),
            ),
{
    if crate::rng::gen_ratio(rng, 1, 2) {
        create_random_good_scroll(item_position, scrolls, level, rng)
    } else {
        create_bad_scroll(item_position, scrolls, level)
    }
}

} // verus!
