//! Two monster behaviours built on attack patterns: one that stays put
//! until someone of the player's side comes near, and one that patrols
//! between random tiles of the rooms.

use crate::combat::{attack, can_attack, is_first_turn, offsets_ok, pattern_reaches, turn_struck};
use crate::components::{abs, PositionComponent, Team};
use crate::game::{combat_of, Game};
use crate::generate_dungeon::{in_interior, random_point_in};
use crate::movement::{moved_towards, try_move_towards};
use crate::rng::choose_item;
use crate::world::{find_index, in_bounds, record_ok, Entity, World};
use vstd::prelude::*;

verus! {

/// Waits for someone of the player's side within four tiles, then chases
/// and attacks it with its pattern.
pub struct StationaryAI {
    pub attack_offsets: Vec<PositionComponent>,
    pub damage_amount: u16,
    pub target: Option<Entity>,
}

/// Like `StationaryAI`, but walks to random tiles of the rooms while it has
/// no target.
pub struct PatrollingAI {
    pub attack_offsets: Vec<PositionComponent>,
    pub damage_amount: u16,
    pub target: Option<Entity>,
    pub patrol_goal: Option<PositionComponent>,
}

/// Record `i` of `w` is a combatant of the player's side within four tiles
/// of `p` on both axes.
pub open spec fn near_ally(w: World, p: PositionComponent, i: int) -> bool {
    &&& 0 <= i < w.records().len()
    &&& w.records()[i].combat matches Some(c) && c.team == Team::Player
    &&& abs(w.records()[i].position.x - p.x) <= 4
    &&& abs(w.records()[i].position.y - p.y) <= 4
}

/// The first combatant of the player's side within four tiles of `p` (see
/// `near_ally`), in table order.
pub fn find_near_ally(w: &World, p: PositionComponent) -> (r: Option<Entity>)
    requires
        w.wf(),
        in_bounds(p),
    ensures
        r matches Some(e) ==> exists|i: int|
            #[trigger] near_ally(*w, p, i) && w.records()[i].entity == e && forall|j: int|
                0 <= j < i ==> !near_ally(*w, p, j),
        r is None ==> forall|i: int| !#[trigger] near_ally(*w, p, i),
{
    let n = w.len();
    let mut i: usize = 0;
    while i < n
        invariant
            n == w.records().len(),
            i <= n,
            w.wf(),
            in_bounds(p),
            forall|j: int| 0 <= j < i ==> !#[trigger] near_ally(*w, p, j),
        decreases n - i,
    {
        let r = w.record_at(i);
        assert(record_ok(w.records()[i as int]));
        let ally = match r.combat {
            Some(c) => c.team == Team::Player,
            None => false,
        };
        let dx: i64 = r.position.x as i64 - p.x as i64;
        let dy: i64 = r.position.y as i64 - p.y as i64;
        if ally && -4 <= dx && dx <= 4 && -4 <= dy && dy <= 4 {
            assert(near_ally(*w, p, i as int));
            return Some(r.entity);
        }
        i = i + 1;
    }
    None
}

/// What one turn spent on `target` did, from `g0` to `g1` (see `pursue`),
/// for an attacker seen at `pos`: when its pattern reaches a foe it
/// attacked (see `attack`) and keeps the target; a target that is gone is
/// kept and nothing changes; a target at least eight tiles from `pos` on
/// both axes is given up and nothing changes; otherwise it keeps the target
/// and stepped towards it (see `moved_towards`).
pub open spec fn pursued(
    g0: Game,
    g1: Game,
    this_entity: Entity,
    pos: PositionComponent,
    target: Entity,
    offsets: Seq<PositionComponent>,
    damage_amount: u16,
    keep: bool,
) -> bool {
    let base = g0.ecs.get_spec(this_entity).unwrap().position;
    let team = combat_of(g0.ecs, this_entity).unwrap().team;
    if pattern_reaches(g0.ecs, base, offsets, team) {
        &&& keep
        &&& exists|k: int, games: Seq<Game>|
            #[trigger] turn_struck(g0.ecs.records(), base, offsets, team, k, damage_amount as int, games)
                && is_first_turn(g0.ecs, base, offsets, team, k) && games[0] == g0 && games.last() == g1
    } else if !g0.ecs.contains_spec(target) {
        keep && g1 == g0
    } else {
        let tp = g0.ecs.get_spec(target).unwrap().position;
        if abs(pos.x - tp.x) >= 8 && abs(pos.y - tp.y) >= 8 {
            !keep && g1 == g0
        } else {
            keep && exists|ok: bool| #[trigger] moved_towards(g0, g1, this_entity, tp, ok)
        }
    }
}

/// One turn spent on `target`: attack with the pattern when it reaches a
/// foe; otherwise give up a target that is at least eight tiles away on
/// both axes, or step towards it. Returns whether the target is kept (see
/// `pursued`).
fn pursue(
    this_entity: Entity,
    this_position: PositionComponent,
    target: Entity,
    attack_offsets: &Vec<PositionComponent>,
    damage_amount: u16,
    game: &mut Game,
) -> (keep: bool)
    requires
        old(game).wf(),
        combat_of(old(game).ecs, this_entity) is Some,
        offsets_ok(attack_offsets@),
        in_bounds(this_position),
    ensures
        final(game).wf(),
        final(game).player_entity == old(game).player_entity,
        final(game).rooms@ == old(game).rooms@,
        pursued(*old(game), *final(game), this_entity, this_position, target, attack_offsets@, damage_amount, keep),
{
    if can_attack(this_entity, attack_offsets, game) {
        attack(this_entity, damage_amount, attack_offsets, game);
        return true;
    }
    let target_position = match game.ecs.get(target) {
        Some(r) => r.position,
        None => {
            return true;
        },
    };
    proof {
        crate::world::lemma_find_index(game.ecs.records(), target);
        let i = find_index(game.ecs.records(), target).unwrap();
        assert(record_ok(game.ecs.records()[i]));
    }
    let dx: i64 = if this_position.x < target_position.x {
        target_position.x as i64 - this_position.x as i64
    } else {
        this_position.x as i64 - target_position.x as i64
    };
    let dy: i64 = if this_position.y < target_position.y {
        target_position.y as i64 - this_position.y as i64
    } else {
        this_position.y as i64 - target_position.y as i64
    };
    if dx >= 8 && dy >= 8 {
        false
    } else {
        let _ = try_move_towards(this_entity, target_position, game);
        true
    }
}

fn position_of(game: &Game, e: Entity) -> (p: PositionComponent)
    requires
        game.ecs.wf(),
        game.ecs.contains_spec(e),
    ensures
        p == game.ecs.get_spec(e).unwrap().position,
        in_bounds(p),
{
    proof {
        crate::world::lemma_find_index(game.ecs.records(), e);
        let i = find_index(game.ecs.records(), e).unwrap();
        assert(record_ok(game.ecs.records()[i]));
    }
    game.ecs.get(e).unwrap().position
}

impl StationaryAI {
    /// One turn: a target that is gone is dropped; with a target it attacks
    /// or closes in (see `pursue`); without one it looks for the first
    /// combatant of the player's side within four tiles (see
    /// `find_near_ally`).
    pub fn run(&mut self, game: &mut Game, this_entity: Entity)
        requires
            old(game).wf(),
            combat_of(old(game).ecs, this_entity) is Some,
            offsets_ok(old(self).attack_offsets@),
        ensures
            final(game).wf(),
            final(game).player_entity == old(game).player_entity,
            final(self).attack_offsets@ == old(self).attack_offsets@,
            final(self).damage_amount == old(self).damage_amount,
            (old(self).target is None || !old(game).ecs.contains_spec(old(self).target.unwrap()))
                ==> final(game).ecs.records() == old(game).ecs.records() && final(self).target
                == find_near_ally_spec(old(game).ecs, old(game).ecs.get_spec(this_entity).unwrap().position),
    {
        let this_position = position_of(game, this_entity);
        match self.target {
            Some(t) => {
                if !game.ecs.contains(t) {
                    self.target = None;
                }
            },
            None => {},
        }
        match self.target {
            Some(t) => {
                if !pursue(this_entity, this_position, t, &self.attack_offsets, self.damage_amount, game) {
                    self.target = None;
                }
            },
            None => {
                let found = find_near_ally(&game.ecs, this_position);
                proof {
                    lemma_find_near_ally_spec(game.ecs, this_position, found);
                }
                self.target = found;
            },
        }
    }
}

/// The first combatant of the player's side within four tiles of `p`.
pub open spec fn find_near_ally_spec(w: World, p: PositionComponent) -> Option<Entity> {
    if exists|i: int| near_ally(w, p, i) {
        let i = choose|i: int| near_ally(w, p, i) && forall|j: int| 0 <= j < i ==> !near_ally(w, p, j);
        Some(w.records()[i].entity)
    } else {
        None
    }
}

proof fn lemma_find_near_ally_spec(w: World, p: PositionComponent, r: Option<Entity>)
    requires
        r matches Some(e) ==> exists|i: int|
            #[trigger] near_ally(w, p, i) && w.records()[i].entity == e && forall|j: int|
                0 <= j < i ==> !near_ally(w, p, j),
        r is None ==> forall|i: int| !#[trigger] near_ally(w, p, i),
    ensures
        r == find_near_ally_spec(w, p),
{
    if let Some(e) = r {
        let i = choose|i: int|
            #[trigger] near_ally(w, p, i) && w.records()[i].entity == e && forall|j: int|
                0 <= j < i ==> !near_ally(w, p, j);
        let c = choose|c: int| near_ally(w, p, c) && forall|j: int| 0 <= j < c ==> !near_ally(w, p, j);
        if c < i {
            assert(!near_ally(w, p, c));
        } else if i < c {
            assert(!near_ally(w, p, i));
        }
    }
}

/// `t` if it is still in the table.
pub open spec fn live_target(w: World, t: Option<Entity>) -> Option<Entity> {
    match t {
        Some(e) => if w.contains_spec(e) {
            Some(e)
        } else {
            None
        },
        None => None,
    }
}

/// `g1` is `g0` with at most its two generators advanced.
pub open spec fn draws_only(g0: Game, g1: Game) -> bool {
    g1 == (Game { rng: g1.rng, dungeon_generation_rng: g1.dungeon_generation_rng, ..g0 })
}

/// The rest of a patrolling turn, from `g0` to `g1`, with target `target`
/// and patrol goal `goal` (see `PatrollingAI::run`), for an attacker seen
/// at `pos`: with a target it spent the turn on it (see `pursued`), keeping
/// the goal; without one it took the first combatant of the player's side
/// within four tiles (see `find_near_ally_spec`) and, finding none, stepped
/// towards a tile beside the goal (see `moved_towards`), dropping the goal
/// when the step was refused. `target1` and `goal1` are what it holds after.
pub open spec fn patrolled(
    g0: Game,
    g1: Game,
    this_entity: Entity,
    pos: PositionComponent,
    target: Option<Entity>,
    goal: PositionComponent,
    offsets: Seq<PositionComponent>,
    damage_amount: u16,
    target1: Option<Entity>,
    goal1: Option<PositionComponent>,
) -> bool {
    match target {
        Some(t) => exists|keep: bool|
            #[trigger] pursued(g0, g1, this_entity, pos, t, offsets, damage_amount, keep) && target1 == (if keep {
                Some(t)
            } else {
                None
            }) && goal1 == Some(goal),
        None => {
            let found = find_near_ally_spec(g0.ecs, pos);
            &&& target1 == found
            &&& found is Some ==> g1 == g0 && goal1 == Some(goal)
            &&& found is None ==> exists|ok: bool|
                #[trigger] moved_towards(g0, g1, this_entity, goal, ok) && goal1 == (if ok {
                    Some(goal)
                } else {
                    None
                })
        },
    }
}

impl PatrollingAI {
    /// One turn: a target that is gone is dropped; without a patrol goal
    /// one is drawn (a random room with the game's generator, a tile of it
    /// with the dungeon's). With a target it attacks or closes in (see
    /// `pursue`); without one it looks for one (see `find_near_ally`) and,
    /// finding none, steps towards a tile beside its patrol goal, dropping
    /// the goal when that fails (see `patrolled`).
    pub fn run(&mut self, game: &mut Game, this_entity: Entity)
        requires
            old(game).wf(),
            combat_of(old(game).ecs, this_entity) is Some,
            offsets_ok(old(self).attack_offsets@),
        ensures
            final(game).wf(),
            final(game).player_entity == old(game).player_entity,
            final(self).attack_offsets@ == old(self).attack_offsets@,
            final(self).damage_amount == old(self).damage_amount,
            final(self).patrol_goal matches Some(g) ==> old(self).patrol_goal == Some(g) || exists|k: int|
                0 <= k < old(game).rooms@.len() && in_interior(#[trigger] old(game).rooms@[k], g),
            exists|mid: Game, goal: PositionComponent|
                draws_only(*old(game), mid) && (old(self).patrol_goal matches Some(g0) ==> goal == g0
                    && mid == *old(game)) && (old(self).patrol_goal is None ==> exists|k: int|
                    0 <= k < old(game).rooms@.len() && in_interior(#[trigger] old(game).rooms@[k], goal))
                    && #[trigger] patrolled(
                    mid,
                    *final(game),
                    this_entity,
                    old(game).ecs.get_spec(this_entity).unwrap().position,
                    live_target(old(game).ecs, old(self).target),
                    goal,
                    old(self).attack_offsets@,
                    old(self).damage_amount,
                    final(self).target,
                    final(self).patrol_goal,
                ),
    {
        let this_position = position_of(game, this_entity);
        match self.target {
            Some(t) => {
                if !game.ecs.contains(t) {
                    self.target = None;
                }
            },
            None => {},
        }
        assert(self.target == live_target(old(game).ecs, old(self).target));
        let ghost rooms = game.rooms@;
        if self.patrol_goal.is_none() {
            let room = match choose_item(game.rooms.as_slice(), &mut game.rng) {
                Some(r) => r,
                None => {
                    assert(false);
                    game.rooms[0]
                },
            };
            let ghost k = choose|k: int| 0 <= k < rooms.len() && rooms[k] == room;
            assert(crate::generate_dungeon::room_in_bounds(rooms[k]));
            self.patrol_goal = Some(random_point_in(room, &mut game.dungeon_generation_rng));
        }
        let ghost mid = *game;
        let ghost goal = self.patrol_goal.unwrap();
        assert(draws_only(*old(game), mid));
        match self.target {
            Some(t) => {
                let keep = pursue(this_entity, this_position, t, &self.attack_offsets, self.damage_amount, game);
                if !keep {
                    self.target = None;
                }
                assert(pursued(mid, *game, this_entity, this_position, t, self.attack_offsets@, self.damage_amount, keep));
            },
            None => {
                let found = find_near_ally(&game.ecs, this_position);
                proof {
                    lemma_find_near_ally_spec(game.ecs, this_position, found);
                }
                self.target = found;
                if self.target.is_none() {
                    let g = self.patrol_goal.unwrap();
                    let moved = try_move_towards(this_entity, g, game);
                    if moved.is_err() {
                        self.patrol_goal = None;
                    }
                    assert(moved_towards(mid, *game, this_entity, goal, moved is Ok));
                }
            },
        }
        assert(patrolled(
            mid,
            *game,
            this_entity,
            old(game).ecs.get_spec(this_entity).unwrap().position,
            live_target(old(game).ecs, old(self).target),
            goal,
            old(self).attack_offsets@,
            old(self).damage_amount,
            self.target,
            self.patrol_goal,
        ));
    }
}

} // verus!
