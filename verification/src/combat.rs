//! Attack patterns: an attacker strikes the tiles of a pattern of offsets,
//! turned a quarter at a time until some turn of it reaches a foe.

use crate::components::{CombatComponent, PositionComponent, Team};
use crate::game::{combat_of, health_after, with_combat, Game};
use crate::world::{find_index, in_bounds, record_ok, Entity, EntityRecord, World};
use vstd::prelude::*;

verus! {

/// The offset `o` turned by `k` quarter turns: `(x, y)` as it is, then
/// `(-y, x)`, `(-x, -y)` and `(y, -x)`.
pub open spec fn turned_offset(o: PositionComponent, k: int) -> (int, int) {
    if k == 0 {
        (o.x as int, o.y as int)
    } else if k == 1 {
        (-o.y, o.x as int)
    } else if k == 2 {
        (-o.x, -o.y)
    } else {
        (o.y as int, -o.x)
    }
}

/// The turns are successive quarter turns of the offset: the first keeps it,
/// and each next one takes `(x, y)` to `(-y, x)`; four of them come back to
/// the start. So the pattern `[(0, 1)]` reaches the four tiles that share a
/// side with the attacker.
pub proof fn lemma_turns_rotate(o: PositionComponent, k: int)
    requires
        0 <= k < 3,
    ensures
        turned_offset(o, 0) == (o.x as int, o.y as int),
        turned_offset(o, k + 1) == (-turned_offset(o, k).1, turned_offset(o, k).0),
        (-turned_offset(o, 3).1, turned_offset(o, 3).0) == turned_offset(o, 0),
        o == (PositionComponent { x: 0, y: 1 }) ==> {
            &&& turned_offset(o, 0) == (0int, 1int)
            &&& turned_offset(o, 1) == (-1int, 0int)
            &&& turned_offset(o, 2) == (0int, -1int)
            &&& turned_offset(o, 3) == (1int, 0int)
        },
{
}

/// The tile past every edge of the plane, where nothing ever stands.
pub open spec fn off_plane() -> PositionComponent {
    PositionComponent { x: 2147483647, y: 2147483647 }
}

/// The tile `o` points at from `base`, turned by `k` quarter turns (see
/// `turned_offset`); `off_plane()` when that tile lies beyond the plane.
pub open spec fn turned_tile(base: PositionComponent, o: PositionComponent, k: int) -> PositionComponent {
    let x = base.x + turned_offset(o, k).0;
    let y = base.y + turned_offset(o, k).1;
    if -2147483647 <= x <= 2147483646 && -2147483647 <= y <= 2147483646 {
        PositionComponent { x: x as i32, y: y as i32 }
    } else {
        off_plane()
    }
}

/// Offsets of at most a thousand tiles on each axis.
pub open spec fn offsets_ok(offsets: Seq<PositionComponent>) -> bool {
    forall|i: int|
        0 <= i < offsets.len() ==> -1000 <= #[trigger] offsets[i].x <= 1000 && -1000 <= offsets[i].y
            <= 1000
}

/// Record `i` of `w` can fight and is not on `team`.
pub open spec fn foe_record(w: World, i: int, team: Team) -> bool {
    &&& 0 <= i < w.records().len()
    &&& w.records()[i].combat matches Some(c) && c.team != team
}

/// A foe of `team` stands on `p`.
pub open spec fn foe_on(w: World, p: PositionComponent, team: Team) -> bool {
    exists|i: int| #[trigger] foe_record(w, i, team) && w.records()[i].position == p
}

/// Some tile of the pattern, turned by the `k`-th quarter turn, holds a foe.
pub open spec fn turn_reaches(
    w: World,
    base: PositionComponent,
    offsets: Seq<PositionComponent>,
    team: Team,
    k: int,
) -> bool {
    exists|i: int| 0 <= i < offsets.len() && foe_on(w, #[trigger] turned_tile(base, offsets[i], k), team)
}

/// Some turn of the pattern reaches a foe.
pub open spec fn pattern_reaches(w: World, base: PositionComponent, offsets: Seq<PositionComponent>, team: Team) -> bool {
    exists|k: int| 0 <= k < 4 && #[trigger] turn_reaches(w, base, offsets, team, k)
}

proof fn lemma_same_records_reach(
    w1: World,
    w2: World,
    base: PositionComponent,
    offsets: Seq<PositionComponent>,
    team: Team,
)
    requires
        w1.records() == w2.records(),
    ensures
        forall|k: int| #[trigger] turn_reaches(w1, base, offsets, team, k) == turn_reaches(w2, base, offsets, team, k),
        pattern_reaches(w1, base, offsets, team) == pattern_reaches(w2, base, offsets, team),
{
    assert forall|p: PositionComponent| #[trigger] foe_on(w1, p, team) == foe_on(w2, p, team) by {
        if foe_on(w1, p, team) {
            let i = choose|i: int| #[trigger] foe_record(w1, i, team) && w1.records()[i].position == p;
            assert(foe_record(w2, i, team));
        }
        if foe_on(w2, p, team) {
            let i = choose|i: int| #[trigger] foe_record(w2, i, team) && w2.records()[i].position == p;
            assert(foe_record(w1, i, team));
        }
    }
    assert forall|k: int| #[trigger] turn_reaches(w1, base, offsets, team, k) == turn_reaches(w2, base, offsets, team, k) by {
        if turn_reaches(w1, base, offsets, team, k) {
            let i = choose|i: int| 0 <= i < offsets.len() && foe_on(w1, #[trigger] turned_tile(base, offsets[i], k), team);
            assert(foe_on(w2, turned_tile(base, offsets[i], k), team));
        }
        if turn_reaches(w2, base, offsets, team, k) {
            let i = choose|i: int| 0 <= i < offsets.len() && foe_on(w2, #[trigger] turned_tile(base, offsets[i], k), team);
            assert(foe_on(w1, turned_tile(base, offsets[i], k), team));
        }
    }
    if pattern_reaches(w1, base, offsets, team) {
        let k = choose|k: int| 0 <= k < 4 && #[trigger] turn_reaches(w1, base, offsets, team, k);
        assert(turn_reaches(w2, base, offsets, team, k));
    }
    if pattern_reaches(w2, base, offsets, team) {
        let k = choose|k: int| 0 <= k < 4 && #[trigger] turn_reaches(w2, base, offsets, team, k);
        assert(turn_reaches(w1, base, offsets, team, k));
    }
}

fn turned_tile_exec(base: PositionComponent, o: PositionComponent, k: usize) -> (p: PositionComponent)
    requires
        -1000 <= o.x <= 1000,
        -1000 <= o.y <= 1000,
        k < 4,
    ensures
        p == turned_tile(base, o, k as int),
        ({
            let (dx, dy) = if k == 0 {
                (o.x as int, o.y as int)
            } else if k == 1 {
                (-o.y, o.x as int)
            } else if k == 2 {
                (-o.x, -o.y)
            } else {
                (o.y as int, -o.x)
            };
            -2147483647 <= base.x + dx <= 2147483646 && -2147483647 <= base.y + dy <= 2147483646 ==> p.x
                == base.x + dx && p.y == base.y + dy
        }),
{
    let (dx, dy): (i64, i64) = if k == 0 {
        (o.x as i64, o.y as i64)
    } else if k == 1 {
        (-(o.y as i64), o.x as i64)
    } else if k == 2 {
        (-(o.x as i64), -(o.y as i64))
    } else {
        (o.y as i64, -(o.x as i64))
    };
    let x = base.x as i64 + dx;
    let y = base.y as i64 + dy;
    if -2147483647 <= x && x <= 2147483646 && -2147483647 <= y && y <= 2147483646 {
        PositionComponent { x: x as i32, y: y as i32 }
    } else {
        PositionComponent { x: 2147483647, y: 2147483647 }
    }
}

/// Record `i` of `rs` is a foe of `team` standing on `p`.
pub open spec fn foe_at(rs: Seq<EntityRecord>, i: int, p: PositionComponent, team: Team) -> bool {
    &&& 0 <= i < rs.len()
    &&& rs[i].position == p
    &&& rs[i].combat matches Some(c) && c.team != team
}

/// Record `i` of `rs` is the last foe of `team`, in table order, standing
/// on `p`.
pub open spec fn is_last_foe(rs: Seq<EntityRecord>, i: int, p: PositionComponent, team: Team) -> bool {
    foe_at(rs, i, p, team) && forall|j: int| i < j ==> !#[trigger] foe_at(rs, j, p, team)
}

/// The last foe of `team`, in table order, standing on `p` in `rs`, if any.
pub open spec fn last_foe_in(rs: Seq<EntityRecord>, p: PositionComponent, team: Team) -> Option<Entity> {
    if exists|i: int| #[trigger] foe_at(rs, i, p, team) {
        Some(rs[choose|i: int| is_last_foe(rs, i, p, team)].entity)
    } else {
        None
    }
}

/// The last foe of `team`, in table order, standing on `p`.
fn last_foe_on(w: &World, p: PositionComponent, team: Team) -> (r: Option<Entity>)
    ensures
        r matches Some(e) ==> exists|i: int| #[trigger] foe_record(*w, i, team) && w.records()[i].position == p
            && w.records()[i].entity == e,
        r is None <==> !foe_on(*w, p, team),
        r == last_foe_in(w.records(), p, team),
{
    let mut i: usize = w.len();
    while i > 0
        invariant
            i <= w.records().len(),
            forall|j: int| i <= j < w.records().len() ==> !(#[trigger] foe_record(*w, j, team) && w.records()[j].position == p),
        decreases i,
    {
        i = i - 1;
        let r = w.record_at(i);
        let foe = match r.combat {
            Some(c) => c.team != team,
            None => false,
        };
        if foe && r.position == p {
            assert(foe_record(*w, i as int, team));
            proof {
                let rs = w.records();
                assert(foe_at(rs, i as int, p, team));
                assert forall|j: int| i < j implies !#[trigger] foe_at(rs, j, p, team) by {
                    if j < rs.len() {
                        assert(!(foe_record(*w, j, team) && rs[j].position == p));
                    }
                }
                assert(is_last_foe(rs, i as int, p, team));
                let c = choose|c: int| is_last_foe(rs, c, p, team);
                if c < i {
                    assert(!foe_at(rs, i as int, p, team));
                } else if c > i {
                    assert(!foe_at(rs, c, p, team));
                }
            }
            return Some(r.entity);
        }
    }
    proof {
        let rs = w.records();
        assert forall|j: int| !#[trigger] foe_at(rs, j, p, team) by {
            if 0 <= j < rs.len() {
                assert(!(foe_record(*w, j, team) && rs[j].position == p));
            }
        }
    }
    None
}

fn team_of(game: &Game, e: Entity) -> (t: Team)
    requires
        combat_of(game.ecs, e) is Some,
    ensures
        t == combat_of(game.ecs, e).unwrap().team,
{
    game.ecs.get(e).unwrap().combat.unwrap().team
}

fn position_of(game: &Game, e: Entity) -> (p: PositionComponent)
    requires
        game.ecs.wf(),
        game.ecs.contains_spec(e),
    ensures
        p == game.ecs.get_spec(e).unwrap().position,
        in_bounds(p),
{
    proof {
        crate::world::lemma_find_index(game.ecs.records(), e);
        let i = find_index(game.ecs.records(), e).unwrap();
        assert(record_ok(game.ecs.records()[i]));
    }
    game.ecs.get(e).unwrap().position
}

/// Whether some turn of the pattern reaches a foe of `attacker` (anyone who
/// can fight and is on another team).
pub fn can_attack(attacker: Entity, attack_offsets: &Vec<PositionComponent>, game: &Game) -> (r: bool)
    requires
        game.wf(),
        combat_of(game.ecs, attacker) is Some,
        offsets_ok(attack_offsets@),
    ensures
        r == pattern_reaches(
            game.ecs,
            game.ecs.get_spec(attacker).unwrap().position,
            attack_offsets@,
            combat_of(game.ecs, attacker).unwrap().team,
        ),
{
    let base = position_of(game, attacker);
    let team = team_of(game, attacker);
    let mut k: usize = 0;
    while k < 4
        invariant
            k <= 4,
            base == game.ecs.get_spec(attacker).unwrap().position,
            team == combat_of(game.ecs, attacker).unwrap().team,
            in_bounds(base),
            offsets_ok(attack_offsets@),
            forall|j: int| 0 <= j < k ==> !#[trigger] turn_reaches(game.ecs, base, attack_offsets@, team, j),
        decreases 4 - k,
    {
        let mut i: usize = 0;
        while i < attack_offsets.len()
            invariant
                k < 4,
                i <= attack_offsets@.len(),
                base == game.ecs.get_spec(attacker).unwrap().position,
                team == combat_of(game.ecs, attacker).unwrap().team,
                in_bounds(base),
                offsets_ok(attack_offsets@),
                forall|j: int|
                    0 <= j < i ==> !foe_on(game.ecs, #[trigger] turned_tile(base, attack_offsets@[j], k as int), team),
            decreases attack_offsets@.len() - i,
        {
            let o = attack_offsets[i];
            let p = turned_tile_exec(base, o, k);
            if last_foe_on(&game.ecs, p, team).is_some() {
                assert(turn_reaches(game.ecs, base, attack_offsets@, team, k as int));
                return true;
            }
            i = i + 1;
        }
        k = k + 1;
    }
    false
}

/// What `damage` does: the target loses `amount` health (never below zero)
/// and, at zero health, is removed unless it is the player.
pub open spec fn damage_result(before: Game, after: Game, target: Entity, amount: int) -> bool {
    let c = combat_of(before.ecs, target).unwrap();
    let health = health_after(c.current_health, amount);
    if health == 0 && target != before.player_entity {
        after.ecs.records() == before.ecs.records().filter(|r: EntityRecord| r.entity != target)
    } else {
        after.ecs.records() == with_combat(before.ecs, target, CombatComponent { current_health: health, ..c })
    }
}

/// Deals `damage_amount` to `target`; returns whether its health reached
/// zero. A target at zero health is removed, unless it is the player.
pub fn damage(target: Entity, damage_amount: u16, game: &mut Game) -> (died: bool)
    requires
        old(game).wf(),
        combat_of(old(game).ecs, target) is Some,
    ensures
        final(game).wf(),
        *final(game) == (Game { ecs: final(game).ecs, ..*old(game) }),
        damage_result(*old(game), *final(game), target, damage_amount as int),
        died == (health_after(combat_of(old(game).ecs, target).unwrap().current_health, damage_amount as int) == 0),
        final(game).ecs.records().len() <= old(game).ecs.records().len(),
        forall|e: Entity| #[trigger] final(game).ecs.contains_spec(e) ==> old(game).ecs.contains_spec(e),
{
    proof {
        crate::world::lemma_find_index(game.ecs.records(), target);
        let i = find_index(game.ecs.records(), target).unwrap();
        assert(record_ok(game.ecs.records()[i]));
    }
    let c = game.ecs.get(target).unwrap().combat.unwrap();
    let amount = damage_amount as u32;
    let health = if amount >= c.current_health {
        0
    } else {
        c.current_health - amount
    };
    if health == 0 && target != game.player_entity {
        let ghost before = game.ecs;
        game.ecs.despawn(target);
        proof {
            crate::world::lemma_find_index(before.records(), game.player_entity);
            assert forall|e: Entity| #[trigger] game.ecs.contains_spec(e) implies before.contains_spec(e) by {
                if e == target {
                } else {
                    crate::world::lemma_filter_find(before.records(), |r: EntityRecord| r.entity != target, e);
                }
            }
        }
    } else {
        game.set_combat(target, CombatComponent { current_health: health, ..c });
    }
    health == 0
}

/// Heals `target` by `heal_amount`, up to its maximum health.
pub fn heal(target: Entity, heal_amount: u16, game: &mut Game)
    requires
        old(game).wf(),
        combat_of(old(game).ecs, target) is Some,
    ensures
        final(game).wf(),
        *final(game) == (Game { ecs: final(game).ecs, ..*old(game) }),
        ({
            let c = combat_of(old(game).ecs, target).unwrap();
            final(game).ecs.records() == with_combat(
                old(game).ecs,
                target,
                CombatComponent {
                    current_health: if c.current_health + heal_amount > c.max_health {
                        c.max_health
                    } else {
                        (c.current_health + heal_amount) as u32
                    },
                    ..c
                },
            )
        }),
{
    proof {
        crate::world::lemma_find_index(game.ecs.records(), target);
        let i = find_index(game.ecs.records(), target).unwrap();
        assert(record_ok(game.ecs.records()[i]));
    }
    let c = game.ecs.get(target).unwrap().combat.unwrap();
    let raised: u64 = c.current_health as u64 + heal_amount as u64;
    let health = if raised > c.max_health as u64 {
        c.max_health
    } else {
        raised as u32
    };
    game.set_combat(target, CombatComponent { current_health: health, ..c });
}

/// One blow of an attack with a pattern, from `g0` to `g1`: the foe found
/// on the tile (`target`), if any and if it can still fight, takes
/// `amount` (see `damage_result`); otherwise nothing happens.
pub open spec fn strike_step(g0: Game, g1: Game, target: Option<Entity>, amount: int) -> bool {
    match target {
        Some(t) => if combat_of(g0.ecs, t) is Some {
            &&& g1 == (Game { ecs: g1.ecs, ..g0 })
            &&& damage_result(g0, g1, t, amount)
        } else {
            g1 == g0
        },
        None => g1 == g0,
    }
}

/// `k` is the first quarter turn of the pattern that reaches a foe.
pub open spec fn is_first_turn(
    w: World,
    base: PositionComponent,
    offsets: Seq<PositionComponent>,
    team: Team,
    k: int,
) -> bool {
    &&& 0 <= k < 4
    &&& turn_reaches(w, base, offsets, team, k)
    &&& forall|j: int| 0 <= j < k ==> !#[trigger] turn_reaches(w, base, offsets, team, j)
}

/// The pattern turned by `k` strikes through `games`: for each offset in
/// order, the last foe on its tile when the attack began (in the table
/// `rs`) takes a blow (see `strike_step`).
pub open spec fn turn_struck(
    rs: Seq<EntityRecord>,
    base: PositionComponent,
    offsets: Seq<PositionComponent>,
    team: Team,
    k: int,
    amount: int,
    games: Seq<Game>,
) -> bool {
    &&& games.len() == offsets.len() + 1
    &&& forall|i: int|
        0 <= i < offsets.len() ==> #[trigger] strike_step(
            games[i],
            games[i + 1],
            last_foe_in(rs, turned_tile(base, offsets[i], k), team),
            amount,
        )
}

/// Attacks with a pattern: turn by turn (see `quarter_turn`), each tile of
/// the pattern is looked at, and the last foe standing on it when the
/// attack began (see `can_attack`) takes `damage_amount` if it can still
/// fight; the first turn that reached any foe is the only one used.
pub fn attack(attacker: Entity, damage_amount: u16, attack_offsets: &Vec<PositionComponent>, game: &mut Game)
    requires
        old(game).wf(),
        combat_of(old(game).ecs, attacker) is Some,
        offsets_ok(attack_offsets@),
    ensures
        final(game).wf(),
        *final(game) == (Game { ecs: final(game).ecs, ..*old(game) }),
        final(game).ecs.records().len() <= old(game).ecs.records().len(),
        forall|e: Entity| #[trigger] final(game).ecs.contains_spec(e) ==> old(game).ecs.contains_spec(e),
        !pattern_reaches(
            old(game).ecs,
            old(game).ecs.get_spec(attacker).unwrap().position,
            attack_offsets@,
            combat_of(old(game).ecs, attacker).unwrap().team,
        ) ==> final(game).ecs.records() == old(game).ecs.records(),
        pattern_reaches(
            old(game).ecs,
            old(game).ecs.get_spec(attacker).unwrap().position,
            attack_offsets@,
            combat_of(old(game).ecs, attacker).unwrap().team,
        ) ==> exists|k: int, games: Seq<Game>|
            #[trigger] turn_struck(
                old(game).ecs.records(),
                old(game).ecs.get_spec(attacker).unwrap().position,
                attack_offsets@,
                combat_of(old(game).ecs, attacker).unwrap().team,
                k,
                damage_amount as int,
                games,
            ) && is_first_turn(
                old(game).ecs,
                old(game).ecs.get_spec(attacker).unwrap().position,
                attack_offsets@,
                combat_of(old(game).ecs, attacker).unwrap().team,
                k,
            ) && games[0] == *old(game) && games.last() == *final(game),
{
    let base = position_of(game, attacker);
    let team = team_of(game, attacker);
    let world = game.ecs.snapshot();
    let ghost start = *game;
    let mut k: usize = 0;
    while k < 4
        invariant
            k <= 4,
            in_bounds(base),
            offsets_ok(attack_offsets@),
            world.records() == start.ecs.records(),
            start == *old(game),
            start.wf(),
            base == start.ecs.get_spec(attacker).unwrap().position,
            team == combat_of(start.ecs, attacker).unwrap().team,
            *game == start,
            forall|j: int| 0 <= j < k ==> !#[trigger] turn_reaches(world, base, attack_offsets@, team, j),
        decreases 4 - k,
    {
        let mut found = false;
        let mut i: usize = 0;
        let ghost mut games: Seq<Game> = seq![*game];
        while i < attack_offsets.len()
            invariant
                k < 4,
                i <= attack_offsets@.len(),
                in_bounds(base),
                offsets_ok(attack_offsets@),
                world.records() == start.ecs.records(),
                start == *old(game),
                base == start.ecs.get_spec(attacker).unwrap().position,
                team == combat_of(start.ecs, attacker).unwrap().team,
                game.wf(),
                *game == (Game { ecs: game.ecs, ..start }),
                game.ecs.records().len() <= start.ecs.records().len(),
                forall|e: Entity| #[trigger] game.ecs.contains_spec(e) ==> start.ecs.contains_spec(e),
                !found ==> *game == start,
                !found ==> forall|j: int|
                    0 <= j < i ==> !foe_on(world, #[trigger] turned_tile(base, attack_offsets@[j], k as int), team),
                found ==> turn_reaches(world, base, attack_offsets@, team, k as int),
                games.len() == i + 1,
                games[0] == start,
                games.last() == *game,
                forall|j: int|
                    0 <= j < i ==> #[trigger] strike_step(
                        games[j],
                        games[j + 1],
                        last_foe_in(start.ecs.records(), turned_tile(base, attack_offsets@[j], k as int), team),
                        damage_amount as int,
                    ),
            decreases attack_offsets@.len() - i,
        {
            let o = attack_offsets[i];
            let p = turned_tile_exec(base, o, k);
            let ghost before = *game;
            let target = last_foe_on(&world, p, team);
            match target {
                Some(t) => {
                    assert(turn_reaches(world, base, attack_offsets@, team, k as int));
                    if game.has_combat(t) {
                        damage(t, damage_amount, game);
                    }
                    found = true;
                },
                None => {},
            }
            proof {
                assert(strike_step(before, *game, target, damage_amount as int));
                let old_games = games;
                games = games.push(*game);
                assert forall|j: int| 0 <= j < i + 1 implies #[trigger] strike_step(
                    games[j],
                    games[j + 1],
                    last_foe_in(start.ecs.records(), turned_tile(base, attack_offsets@[j], k as int), team),
                    damage_amount as int,
                ) by {
                    if j < i {
                        assert(games[j] == old_games[j] && games[j + 1] == old_games[j + 1]);
                    }
                }
            }
            i = i + 1;
        }
        if found {
            proof {
                lemma_same_records_reach(world, start.ecs, base, attack_offsets@, team);
                assert(turn_struck(
                    start.ecs.records(),
                    base,
                    attack_offsets@,
                    team,
                    k as int,
                    damage_amount as int,
                    games,
                ));
                assert forall|j: int| 0 <= j < k implies !#[trigger] turn_reaches(
                    start.ecs,
                    base,
                    attack_offsets@,
                    team,
                    j,
                ) by {
                    assert(!turn_reaches(world, base, attack_offsets@, team, j));
                }
                assert(turn_reaches(start.ecs, base, attack_offsets@, team, k as int));
                assert(is_first_turn(start.ecs, base, attack_offsets@, team, k as int));
            }
            return;
        }
        k = k + 1;
    }
    proof {
        lemma_same_records_reach(world, start.ecs, base, attack_offsets@, team);
    }
}

} // verus!
