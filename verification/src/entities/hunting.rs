//! What the monsters share: finding a quarry and keeping it, picking patrol
//! goals, choosing whom to strike, and stepping towards a goal.

use crate::components::{is_adjacent8, neighbor_seq, PositionComponent, Team};
use crate::game::{combat_of, same_setting, Game};
use crate::generate_dungeon::{in_interior, random_point_in};
use crate::movement::{
    first_reachable, goal_met, goal_tile, pathfind, search_area, search_fits, search_walk,
    walk_distance, walk_end, walk_ok, Goal,
};
use crate::rng::choose_item;
use crate::world::{find_index, in_bounds, record_ok, Entity, EntityRecord, World};
use vstd::prelude::*;

verus! {

/// Whether a combatant of `team` is hunted: with `player_side_only` only the
/// player's side, otherwise everyone not on the enemy team.
pub open spec fn is_prey(team: Team, player_side_only: bool) -> bool {
    if player_side_only {
        team == Team::Player
    } else {
        team != Team::Enemy
    }
}

/// Record `i` of `w` is a hunted combatant.
pub open spec fn prey_record(w: World, i: int, player_side_only: bool) -> bool {
    &&& 0 <= i < w.records().len()
    &&& w.records()[i].combat matches Some(c) && is_prey(c.team, player_side_only)
}

/// `p` touches (by a side or a corner) some hunted combatant.
pub open spec fn prey_cell(w: World, p: PositionComponent, player_side_only: bool) -> bool {
    exists|i: int| #[trigger]
        prey_record(w, i, player_side_only) && is_adjacent8(w.records()[i].position, p)
}

/// Record `i` is the last hunted combatant in table order that touches `p`.
pub open spec fn is_last_prey_at(w: World, p: PositionComponent, player_side_only: bool, i: int) -> bool {
    &&& prey_record(w, i, player_side_only)
    &&& is_adjacent8(w.records()[i].position, p)
    &&& forall|j: int|
        i < j < w.records().len() ==> !(#[trigger] prey_record(w, j, player_side_only)
            && is_adjacent8(w.records()[j].position, p))
}

/// `c` is a tile touching a hunted combatant that a walk of `d` (at most two)
/// steps from `from` reaches, and no such tile is nearer.
pub open spec fn nearest_prey_cell(
    w: World,
    from: PositionComponent,
    player_side_only: bool,
    c: PositionComponent,
    d: int,
) -> bool {
    let obstacles = w.positions_spec();
    &&& search_fits(from, from, obstacles)
    &&& prey_cell(w, c, player_side_only)
    &&& 0 <= d <= 2
    &&& exists|path: Seq<PositionComponent>|
        search_walk(from, from, obstacles, true, path) && #[trigger] walk_end(from, path) == c
            && path.len() == d
    &&& forall|path: Seq<PositionComponent>|
        search_walk(from, from, obstacles, true, path) && prey_cell(
            w,
            #[trigger] walk_end(from, path),
            player_side_only,
        ) ==> d <= path.len()
}

fn is_prey_exec(team: Team, player_side_only: bool) -> (r: bool)
    ensures
        r == is_prey(team, player_side_only),
{
    if player_side_only {
        team == Team::Player
    } else {
        team != Team::Enemy
    }
}

fn is_adjacent8_exec(p: PositionComponent, q: PositionComponent) -> (r: bool)
    ensures
        r == is_adjacent8(p, q),
{
    let dx = q.x as i64 - p.x as i64;
    let dy = q.y as i64 - p.y as i64;
    -1 <= dx && dx <= 1 && -1 <= dy && dy <= 1 && !(dx == 0 && dy == 0)
}

fn record_is_prey(r: &EntityRecord, player_side_only: bool) -> (b: bool)
    ensures
        b == (r.combat matches Some(c) && is_prey(c.team, player_side_only)),
{
    match r.combat {
        Some(c) => is_prey_exec(c.team, player_side_only),
        None => false,
    }
}

/// Every tile touching a hunted combatant (a tile may be listed twice).
pub fn prey_cells(w: &World, player_side_only: bool) -> (r: Vec<PositionComponent>)
    requires
        w.wf(),
    ensures
        forall|p: PositionComponent| #[trigger] r@.contains(p) <==> prey_cell(*w, p, player_side_only),
{
    let mut r: Vec<PositionComponent> = Vec::new();
    let n = w.len();
    let mut i: usize = 0;
    while i < n
        invariant
            n == w.records().len(),
            i <= n,
            w.wf(),
            forall|p: PositionComponent| #[trigger]
                r@.contains(p) <==> exists|j: int|
                    0 <= j < i && #[trigger] prey_record(*w, j, player_side_only) && is_adjacent8(
                        w.records()[j].position,
                        p,
                    ),
        decreases n - i,
    {
        let rec = w.record_at(i);
        assert(record_ok(w.records()[i as int]));
        let ghost before = r@;
        if record_is_prey(&rec, player_side_only) {
            proof {
                crate::components::lemma_neighbor_seq_adjacent(rec.position);
            }
            let ns = rec.position.neighbors();
            let mut k: usize = 0;
            while k < 8
                invariant
                    k <= 8,
                    ns@ == neighbor_seq(rec.position),
                    r@ == before + ns@.subrange(0, k as int),
                decreases 8 - k,
            {
                r.push(ns[k]);
                k = k + 1;
            }
            assert(r@ =~= before + ns@);
            assert forall|p: PositionComponent| #[trigger]
                r@.contains(p) <==> exists|j: int|
                    0 <= j < i + 1 && #[trigger] prey_record(*w, j, player_side_only) && is_adjacent8(
                        w.records()[j].position,
                        p,
                    ) by {
                if r@.contains(p) {
                    let k = choose|k: int| 0 <= k < r@.len() && r@[k] == p;
                    if k >= before.len() {
                        assert(ns@[k - before.len()] == p);
                        assert(prey_record(*w, i as int, player_side_only));
                    } else {
                        assert(before[k] == p);
                        assert(before.contains(p));
                    }
                }
                if exists|j: int|
                    0 <= j < i + 1 && #[trigger] prey_record(*w, j, player_side_only) && is_adjacent8(
                        w.records()[j].position,
                        p,
                    ) {
                    let j = choose|j: int|
                        0 <= j < i + 1 && #[trigger] prey_record(*w, j, player_side_only)
                            && is_adjacent8(w.records()[j].position, p);
                    if j < i {
                        assert(before.contains(p));
                        let k = choose|k: int| 0 <= k < before.len() && before[k] == p;
                        assert(r@[k] == p);
                    } else {
                        assert(ns@.contains(p));
                        let k = choose|k: int| 0 <= k < 8 && ns@[k] == p;
                        assert(r@[before.len() + k] == p);
                    }
                }
            }
        } else {
            assert forall|p: PositionComponent| #[trigger]
                r@.contains(p) <==> exists|j: int|
                    0 <= j < i + 1 && #[trigger] prey_record(*w, j, player_side_only) && is_adjacent8(
                        w.records()[j].position,
                        p,
                    ) by {
                if exists|j: int|
                    0 <= j < i + 1 && #[trigger] prey_record(*w, j, player_side_only) && is_adjacent8(
                        w.records()[j].position,
                        p,
                    ) {
                    let j = choose|j: int|
                        0 <= j < i + 1 && #[trigger] prey_record(*w, j, player_side_only)
                            && is_adjacent8(w.records()[j].position, p);
                    assert(j < i);
                }
            }
        }
        i = i + 1;
    }
    r
}

/// The entity of the last hunted combatant, in table order, touching `p`.
pub fn last_prey_next_to(w: &World, p: PositionComponent, player_side_only: bool) -> (r: Option<Entity>)
    ensures
        r matches Some(e) ==> exists|i: int| #[trigger]
            is_last_prey_at(*w, p, player_side_only, i) && w.records()[i].entity == e,
        r is None ==> !prey_cell(*w, p, player_side_only),
{
    let n = w.len();
    let mut i: usize = n;
    while i > 0
        invariant
            n == w.records().len(),
            i <= n,
            forall|j: int|
                i <= j < n ==> !(#[trigger] prey_record(*w, j, player_side_only) && is_adjacent8(
                    w.records()[j].position,
                    p,
                )),
        decreases i,
    {
        i = i - 1;
        let rec = w.record_at(i);
        if record_is_prey(&rec, player_side_only) && is_adjacent8_exec(rec.position, p) {
            assert(is_last_prey_at(*w, p, player_side_only, i as int));
            return Some(rec.entity);
        }
    }
    None
}

/// What a search for a quarry from `from` may give: a quarry beside the
/// nearest tile touching a hunted combatant that is at most two steps away
/// (the last such combatant in table order), or `None` when no such tile is
/// within two steps.
pub open spec fn chase_choice(w: World, from: PositionComponent, player_side_only: bool, r: Option<Entity>) -> bool {
    &&& r matches Some(e) ==> exists|c: PositionComponent, d: int, i: int|
        #![trigger nearest_prey_cell(w, from, player_side_only, c, d), is_last_prey_at(w, c, player_side_only, i)]
        nearest_prey_cell(w, from, player_side_only, c, d) && is_last_prey_at(w, c, player_side_only, i)
            && w.records()[i].entity == e
    &&& r is None && search_fits(from, from, w.positions_spec()) ==> forall|
        path: Seq<PositionComponent>,
    |
        search_walk(from, from, w.positions_spec(), true, path) && prey_cell(
            w,
            #[trigger] walk_end(from, path),
            player_side_only,
        ) ==> path.len() > 2
}

/// A quarry found by a search exists.
pub proof fn lemma_chase_choice_exists(w: World, from: PositionComponent, player_side_only: bool, e: Entity)
    requires
        chase_choice(w, from, player_side_only, Some(e)),
    ensures
        w.contains_spec(e),
{
    let (c, d, i) = choose|c: PositionComponent, d: int, i: int|
        #![trigger nearest_prey_cell(w, from, player_side_only, c, d), is_last_prey_at(w, c, player_side_only, i)]
        nearest_prey_cell(w, from, player_side_only, c, d) && is_last_prey_at(w, c, player_side_only, i)
            && w.records()[i].entity == e;
    crate::world::lemma_find_index(w.records(), e);
}

/// Looks for a quarry: among the tiles touching a hunted combatant, the
/// first one a breadth-first search from `from` (king moves, around every
/// entity) reaches within two steps; the quarry is the last hunted
/// combatant in table order touching that tile. `None` when no such tile is
/// that near.
pub fn find_chase_target(from: PositionComponent, w: &World, player_side_only: bool) -> (r: Option<
    Entity,
>)
    requires
        w.wf(),
    ensures
        chase_choice(*w, from, player_side_only, r),
{
    let obstacles = w.positions();
    let cells = prey_cells(w, player_side_only);
    match first_reachable(from, from, &obstacles, true, &cells, 2) {
        Some((c, d)) => {
            let r = last_prey_next_to(w, c, player_side_only);
            proof {
                assert(nearest_prey_cell(*w, from, player_side_only, c, d as int));
                if let Some(e) = r {
                    let i = choose|i: int| #[trigger]
                        is_last_prey_at(*w, c, player_side_only, i) && w.records()[i].entity == e;
                    assert(nearest_prey_cell(*w, from, player_side_only, c, d as int)
                        && is_last_prey_at(*w, c, player_side_only, i));
                }
            }
            r
        },
        None => None,
    }
}

/// Whether a chase goes on: exactly when the quarry still exists. A quarry
/// more than three steps away would end the chase too, but the distance is
/// measured to the quarry's own tile, which it occupies and no walk enters,
/// so only its removal ends a chase.
pub fn is_chase_target_still_valid(this_entity: Entity, chase_target: Entity, w: &World) -> (r: bool)
    requires
        w.wf(),
        w.contains_spec(this_entity),
    ensures
        r == w.contains_spec(chase_target),
{
    let target_record = match w.get(chase_target) {
        Some(t) => t,
        None => {
            return false;
        },
    };
    let this_position = w.get(this_entity).unwrap().position;
    let obstacles = w.positions();
    proof {
        crate::world::lemma_find_index(w.records(), chase_target);
        let i = find_index(w.records(), chase_target).unwrap();
        assert(obstacles@[i] == target_record.position);
    }
    match walk_distance(this_position, target_record.position, &obstacles, true) {
        Some(d) => {
            proof {
                let path = choose|path: Seq<PositionComponent>|
                    search_walk(this_position, target_record.position, obstacles@, true, path)
                        && #[trigger] walk_end(this_position, path) == target_record.position
                        && path.len() == d;
                if path.len() > 0 {
                    assert(!obstacles@.contains(path[path.len() - 1]));
                }
            }
            d <= 3
        },
        None => true,
    }
}

/// The table with the first record of `e` moved to `p`.
pub open spec fn with_position(w: World, e: Entity, p: PositionComponent) -> Seq<EntityRecord> {
    let i = find_index(w.records(), e).unwrap();
    w.records().update(i, EntityRecord { position: p, ..w.records()[i] })
}

/// The table after stepping `e` along `path`: onto its first tile, unless the
/// walk is empty or that tile lies beyond the bounded plane.
pub open spec fn stepped(w: World, e: Entity, path: Seq<PositionComponent>) -> Seq<EntityRecord> {
    if path.len() > 0 && in_bounds(path[0]) {
        with_position(w, e, path[0])
    } else {
        w.records()
    }
}

/// `path` is a shortest walk from `start` (king moves, around `obstacles`,
/// inside the searched rectangle) to a tile meeting `goal`.
#[verifier::opaque]
pub open spec fn shortest_walk_to(
    start: PositionComponent,
    goal: Goal,
    obstacles: Seq<PositionComponent>,
    path: Seq<PositionComponent>,
) -> bool {
    let area = search_area(start, goal_tile(goal), obstacles);
    &&& search_fits(start, goal_tile(goal), obstacles)
    &&& walk_ok(area, obstacles, true, start, path)
    &&& goal_met(goal, walk_end(start, path))
    &&& forall|w: Seq<PositionComponent>|
        walk_ok(area, obstacles, true, start, w) && goal_met(goal, #[trigger] walk_end(start, w))
            ==> path.len() <= w.len()
}

/// The first tile of a shortest walk is a king move from its start.
pub proof fn lemma_shortest_first_step(
    start: PositionComponent,
    goal: Goal,
    obstacles: Seq<PositionComponent>,
    path: Seq<PositionComponent>,
)
    requires
        shortest_walk_to(start, goal, obstacles, path),
        path.len() > 0,
    ensures
        is_adjacent8(start, path[0]),
{
    reveal(shortest_walk_to);
    assert(crate::movement::step_ok(true, start, path[0]));
}

/// Two shortest walks to the same goal have the same length.
pub proof fn lemma_shortest_same_length(
    start: PositionComponent,
    goal: Goal,
    obstacles: Seq<PositionComponent>,
    p: Seq<PositionComponent>,
    q: Seq<PositionComponent>,
)
    requires
        shortest_walk_to(start, goal, obstacles, p),
        shortest_walk_to(start, goal, obstacles, q),
    ensures
        p.len() == q.len(),
{
    reveal(shortest_walk_to);
    assert(goal_met(goal, walk_end(start, p)));
    assert(goal_met(goal, walk_end(start, q)));
}

/// When the goal cannot be reached there is no shortest walk to it.
pub proof fn lemma_unreachable_no_walk(
    start: PositionComponent,
    goal: Goal,
    obstacles: Seq<PositionComponent>,
    p: Seq<PositionComponent>,
)
    requires
        goal_unreachable(start, goal, obstacles),
    ensures
        !shortest_walk_to(start, goal, obstacles, p),
{
    reveal(shortest_walk_to);
    reveal(goal_unreachable);
    if shortest_walk_to(start, goal, obstacles, p) {
        assert(goal_met(goal, walk_end(start, p)));
    }
}

/// No walk from `start` reaches a tile meeting `goal` (when the search fits).
#[verifier::opaque]
pub open spec fn goal_unreachable(start: PositionComponent, goal: Goal, obstacles: Seq<PositionComponent>) -> bool {
    search_fits(start, goal_tile(goal), obstacles) ==> forall|w: Seq<PositionComponent>|
        walk_ok(search_area(start, goal_tile(goal), obstacles), obstacles, true, start, w)
            ==> !goal_met(goal, #[trigger] walk_end(start, w))
}

/// What a step towards `goal` did to the table `after`: with a walk found,
/// `this_entity` took the first step of a shortest one; otherwise nothing
/// changed and no walk reaches the goal.
pub open spec fn step_outcome(before: World, after: World, this_entity: Entity, goal: Goal, found: bool) -> bool {
    let start = before.get_spec(this_entity).unwrap().position;
    let obstacles = before.positions_spec();
    if found {
        exists|path: Seq<PositionComponent>|
            #[trigger] shortest_walk_to(start, goal, obstacles, path) && after.records() == stepped(
                before,
                this_entity,
                path,
            )
    } else {
        after.records() == before.records() && goal_unreachable(start, goal, obstacles)
    }
}

pub(crate) fn shortest_path(start: PositionComponent, goal: Goal, obstacles: &Vec<PositionComponent>) -> (r: Option<
    Vec<PositionComponent>,
>)
    ensures
        r matches Some(path) ==> shortest_walk_to(start, goal, obstacles@, path@),
        r is None ==> goal_unreachable(start, goal, obstacles@),
{
    let r = pathfind(start, goal, obstacles, true);
    proof {
        reveal(shortest_walk_to);
        reveal(goal_unreachable);
    }
    r
}

fn move_record(w: &mut World, idx: usize, p: PositionComponent)
    requires
        old(w).wf(),
        idx < old(w).records().len(),
        in_bounds(p),
    ensures
        final(w).wf(),
        final(w).records() == old(w).records().update(
            idx as int,
            EntityRecord { position: p, ..old(w).records()[idx as int] },
        ),
        forall|e: Entity| #[trigger] find_index(final(w).records(), e) == find_index(old(w).records(), e),
{
    let rec = w.record_at(idx);
    assert(record_ok(w.records()[idx as int]));
    w.set_record(idx, EntityRecord { position: p, ..rec });
}

fn step_in_world(this_entity: Entity, goal: Goal, w: &mut World) -> (found: bool)
    requires
        old(w).wf(),
        old(w).contains_spec(this_entity),
    ensures
        final(w).wf(),
        step_outcome(*old(w), *final(w), this_entity, goal, found),
        final(w).records().len() == old(w).records().len(),
        forall|e: Entity| #[trigger] find_index(final(w).records(), e) == find_index(old(w).records(), e),
        forall|i: int|
            0 <= i < old(w).records().len() ==> #[trigger] final(w).records()[i] == (EntityRecord {
                position: final(w).records()[i].position,
                ..old(w).records()[i]
            }),
{
    let idx = w.index_of(this_entity).unwrap();
    proof {
        crate::world::lemma_find_index(w.records(), this_entity);
    }
    let start = w.record_at(idx).position;
    let obstacles = w.positions();
    let ghost before = *w;
    match shortest_path(start, goal, &obstacles) {
        Some(path) => {
            if path.len() > 0 {
                let next = path[0];
                if crate::world::in_bounds_position(next) {
                    move_record(w, idx, next);
                }
            }
            assert(w.records() == stepped(before, this_entity, path@));
            true
        },
        None => false,
    }
}

/// Moves `this_entity` one step along a shortest walk (king moves, around
/// every entity) to a tile meeting `goal`. Returns whether such a walk was
/// found; an entity already meeting the goal stays where it is.
pub fn move_towards(this_entity: Entity, goal: Goal, game: &mut Game) -> (found: bool)
    requires
        old(game).wf(),
        old(game).ecs.contains_spec(this_entity),
    ensures
        final(game).wf(),
        *final(game) == (Game { ecs: final(game).ecs, ..*old(game) }),
        step_outcome(old(game).ecs, final(game).ecs, this_entity, goal, found),
        final(game).ecs.records().len() == old(game).ecs.records().len(),
        forall|e: Entity| #[trigger] final(game).ecs.contains_spec(e) == old(game).ecs.contains_spec(e),
{
    let ghost before = *game;
    let found = step_in_world(this_entity, goal, &mut game.ecs);
    proof {
        let fi = find_index(before.ecs.records(), game.player_entity).unwrap();
        assert(find_index(game.ecs.records(), game.player_entity) == Some(fi));
        crate::world::lemma_find_index(before.ecs.records(), game.player_entity);
        assert(game.ecs.records()[fi].combat == before.ecs.records()[fi].combat);
    }
    found
}

/// A patrol goal for a monster standing on `here`: a random tile of a random
/// room, drawn again while it is `here` (at most a thousand draws). The room
/// comes from the game's generator, the tile from the generator of the
/// dungeon when `tile_from_dungeon_rng` is set and from the game's otherwise.
pub fn choose_patrol_goal(game: &mut Game, here: PositionComponent, tile_from_dungeon_rng: bool) -> (g:
    PositionComponent)
    requires
        old(game).wf(),
    ensures
        final(game).wf(),
        *final(game) == (Game {
            rng: final(game).rng,
            dungeon_generation_rng: final(game).dungeon_generation_rng,
            ..*old(game)
        }),
        exists|k: int| 0 <= k < old(game).rooms@.len() && in_interior(#[trigger] old(game).rooms@[k], g),
        !tile_from_dungeon_rng ==> final(game).dungeon_generation_rng == old(game).dungeon_generation_rng,
{
    let mut tries: u32 = 0;
    let mut goal = here;
    let mut found = false;
    let ghost start = *game;
    while !found || (goal == here && tries < 1000)
        invariant
            game.wf(),
            *game == (Game {
                rng: game.rng,
                dungeon_generation_rng: game.dungeon_generation_rng,
                ..start
            }),
            start.wf(),
            tries <= 1000,
            found ==> exists|k: int| 0 <= k < start.rooms@.len() && in_interior(#[trigger] start.rooms@[k], goal),
            !found ==> tries == 0,
            !tile_from_dungeon_rng ==> game.dungeon_generation_rng == start.dungeon_generation_rng,
        decreases 1001 - tries,
    {
        let room = match choose_item(game.rooms.as_slice(), &mut game.rng) {
            Some(r) => r,
            None => {
                assert(false);
                game.rooms[0]
            },
        };
        let ghost k = choose|k: int| 0 <= k < start.rooms@.len() && start.rooms@[k] == room;
        assert(crate::generate_dungeon::room_in_bounds(start.rooms@[k]));
        goal = if tile_from_dungeon_rng {
            random_point_in(room, &mut game.dungeon_generation_rng)
        } else {
            random_point_in(room, &mut game.rng)
        };
        found = true;
        tries = tries + 1;
    }
    goal
}

/// The quarry a hunter on `here` goes after this turn, given the one it had:
/// that one while it is still on the floor, otherwise a fresh pick (see
/// `chase_choice`).
pub open spec fn quarry_for_turn(
    w: World,
    here: PositionComponent,
    player_side_only: bool,
    before: Option<Entity>,
    after: Option<Entity>,
) -> bool {
    if before matches Some(t) && w.contains_spec(t) {
        after == before
    } else {
        chase_choice(w, here, player_side_only, after)
    }
}

/// The patrol goal a hunter on `here` heads for this turn, given the one it
/// had, and what picking it did to the game: without a goal, or standing on
/// it, it draws a tile of a room (only the generators move on); otherwise
/// it keeps its goal and the game is untouched.
pub open spec fn patrol_goal_for_turn(
    before: Game,
    after: Game,
    here: PositionComponent,
    old_goal: Option<PositionComponent>,
    new_goal: Option<PositionComponent>,
) -> bool {
    let needs_goal = match old_goal {
        Some(g) => g == here,
        None => true,
    };
    if needs_goal {
        &&& after == (Game {
            rng: after.rng,
            dungeon_generation_rng: after.dungeon_generation_rng,
            ..before
        })
        &&& new_goal matches Some(g) && exists|k: int|
            0 <= k < before.rooms@.len() && in_interior(#[trigger] before.rooms@[k], g)
    } else {
        &&& after == before
        &&& new_goal == old_goal
    }
}

/// A hunter's move in a turn in which it struck no one: with a quarry still
/// on the floor, one step towards a tile beside it; with a quarry gone,
/// nothing; without a quarry, one step towards its patrol goal `goal`,
/// which it forgets (`goal_after`) when no walk leads there. Only the
/// table of entities changes.
pub open spec fn hunt_step(
    before: Game,
    after: Game,
    this_entity: Entity,
    chase: Option<Entity>,
    goal: Option<PositionComponent>,
    goal_after: Option<PositionComponent>,
) -> bool {
    match chase {
        Some(t) => {
            &&& goal_after == goal
            &&& match before.ecs.get_spec(t) {
                Some(r) => {
                    &&& after == (Game { ecs: after.ecs, ..before })
                    &&& exists|found: bool|
                        #[trigger] step_outcome(before.ecs, after.ecs, this_entity, Goal::NextTo(r.position), found)
                },
                None => after == before,
            }
        },
        None => match goal {
            Some(g) => {
                &&& after == (Game { ecs: after.ecs, ..before })
                &&& {
                    ||| step_outcome(before.ecs, after.ecs, this_entity, Goal::Reach(g), true) && goal_after == goal
                    ||| step_outcome(before.ecs, after.ecs, this_entity, Goal::Reach(g), false) && goal_after
                        is None
                }
            },
            None => after == before && goal_after is None,
        },
    }
}

/// The tile beside `here` that a monster looks at `k`-th when it strikes:
/// left, below, right, above.
pub open spec fn side(here: PositionComponent, k: int) -> PositionComponent {
    if k == 0 {
        crate::components::shifted(here, -1, 0)
    } else if k == 1 {
        crate::components::shifted(here, 0, -1)
    } else if k == 2 {
        crate::components::shifted(here, 1, 0)
    } else {
        crate::components::shifted(here, 0, 1)
    }
}

/// Record `i` is the first hunted combatant in table order standing on `p`.
pub open spec fn is_first_prey_on(w: World, p: PositionComponent, player_side_only: bool, i: int) -> bool {
    &&& prey_record(w, i, player_side_only)
    &&& w.records()[i].position == p
    &&& forall|j: int|
        0 <= j < i ==> !(#[trigger] prey_record(w, j, player_side_only) && w.records()[j].position
            == p)
}

/// The entity of the first hunted combatant in table order standing on `p`.
pub open spec fn first_prey_on(w: World, p: PositionComponent, player_side_only: bool) -> Option<Entity> {
    if exists|i: int| is_first_prey_on(w, p, player_side_only, i) {
        Some(w.records()[choose|i: int| is_first_prey_on(w, p, player_side_only, i)].entity)
    } else {
        None
    }
}

/// Whom a monster on `here` that chases `chase` strikes: it looks at the
/// four sides in turn (left, below, right, above), taking on each the first
/// hunted combatant standing there, and stops as soon as that is its quarry.
/// So the quarry when it stands beside the monster, and otherwise whoever
/// stands above (possibly no one).
pub open spec fn attack_target(
    w: World,
    here: PositionComponent,
    chase: Option<Entity>,
    player_side_only: bool,
) -> Option<Entity> {
    if chase is Some && exists|k: int|
        0 <= k < 4 && #[trigger] first_prey_on(w, side(here, k), player_side_only) == chase {
        chase
    } else {
        first_prey_on(w, side(here, 3), player_side_only)
    }
}

proof fn lemma_first_prey_unique(w: World, p: PositionComponent, player_side_only: bool, i: int, j: int)
    requires
        is_first_prey_on(w, p, player_side_only, i),
        is_first_prey_on(w, p, player_side_only, j),
    ensures
        i == j,
{
    if i < j {
        assert(prey_record(w, i, player_side_only) && w.records()[i].position == p);
    } else if j < i {
        assert(prey_record(w, j, player_side_only) && w.records()[j].position == p);
    }
}

/// The first hunted combatant standing on `p`.
pub fn first_prey_on_exec(w: &World, p: PositionComponent, player_side_only: bool) -> (r: Option<Entity>)
    ensures
        r == first_prey_on(*w, p, player_side_only),
{
    let n = w.len();
    let mut i: usize = 0;
    while i < n
        invariant
            n == w.records().len(),
            i <= n,
            forall|j: int|
                0 <= j < i ==> !(#[trigger] prey_record(*w, j, player_side_only) && w.records()[j].position
                    == p),
        decreases n - i,
    {
        let rec = w.record_at(i);
        if rec.position == p && record_is_prey(&rec, player_side_only) {
            proof {
                assert(is_first_prey_on(*w, p, player_side_only, i as int));
                let c = choose|c: int| is_first_prey_on(*w, p, player_side_only, c);
                lemma_first_prey_unique(*w, p, player_side_only, i as int, c);
            }
            return Some(rec.entity);
        }
        i = i + 1;
    }
    None
}

fn same_target(a: Option<Entity>, b: Option<Entity>) -> (r: bool)
    ensures
        r == (b is Some && a == b),
{
    match (a, b) {
        (Some(x), Some(y)) => x == y,
        _ => false,
    }
}

/// Whom a monster on `here` chasing `chase` strikes (see `attack_target`).
pub fn choose_attack_target(
    w: &World,
    here: PositionComponent,
    chase: Option<Entity>,
    player_side_only: bool,
) -> (r: Option<Entity>)
    requires
        in_bounds(here),
    ensures
        r == attack_target(*w, here, chase, player_side_only),
{
    let t0 = first_prey_on_exec(w, PositionComponent { x: here.x - 1, y: here.y }, player_side_only);
    assert(PositionComponent { x: (here.x - 1) as i32, y: here.y } == side(here, 0));
    if same_target(t0, chase) {
        return t0;
    }
    let t1 = first_prey_on_exec(w, PositionComponent { x: here.x, y: here.y - 1 }, player_side_only);
    assert(PositionComponent { x: here.x, y: (here.y - 1) as i32 } == side(here, 1));
    if same_target(t1, chase) {
        return t1;
    }
    let t2 = first_prey_on_exec(w, PositionComponent { x: here.x + 1, y: here.y }, player_side_only);
    assert(PositionComponent { x: (here.x + 1) as i32, y: here.y } == side(here, 2));
    if same_target(t2, chase) {
        return t2;
    }
    let t3 = first_prey_on_exec(w, PositionComponent { x: here.x, y: here.y + 1 }, player_side_only);
    assert(PositionComponent { x: here.x, y: (here.y + 1) as i32 } == side(here, 3));
    proof {
        if chase is Some && exists|k: int|
            0 <= k < 4 && #[trigger] first_prey_on(*w, side(here, k), player_side_only) == chase {
            let k = choose|k: int|
                0 <= k < 4 && #[trigger] first_prey_on(*w, side(here, k), player_side_only) == chase;
            assert(k == 3);
        }
    }
    t3
}

} // verus!
