//! The turn loop: a new game, whose turn it is, and what the player's keys
//! do on the player's turn.

use crate::components::{CombatComponent, PositionComponent, Team};
use crate::entities::{ai_turn_taken, create_player, AIComponent, AI};
use crate::game::{
    combat_of, facing_ok, floor_changed, floor_laid_out, has_staircase_in, same_setting, turn_ended, with_combat,
    Animation, Game,
};
use crate::rng::pcg_from_seed;
use crate::world::{find_index, in_bounds, record_ok, Entity, EntityRecord, World};
use std::collections::VecDeque;
use vstd::prelude::*;

verus! {

/// The keys read on the player's turn: a direction (each component -1, 0
/// or 1), whether only to turn that way, whether to wait, and whether to use
/// what the player faces.
#[derive(Debug, Copy, Clone, PartialEq, Eq, Structural)]
pub struct PlayerInput {
    pub dx: i32,
    pub dy: i32,
    pub turn_only: bool,
    pub wait: bool,
    pub interact: bool,
}

/// Each component of the direction is -1, 0 or 1.
pub open spec fn input_ok(i: PlayerInput) -> bool {
    -1 <= i.dx <= 1 && -1 <= i.dy <= 1
}

impl PlayerInput {
    /// The input for the keys held: up gives `dy` 1 and down -1 (down wins
    /// when both are held), left gives `dx` -1 and right 1 (right wins).
    pub fn from_keys(
        up: bool,
        left: bool,
        down: bool,
        right: bool,
        turn_only: bool,
        wait: bool,
        interact: bool,
    ) -> (i: PlayerInput)
        ensures
            input_ok(i),
            i.dy == (if down {
                -1int
            } else if up {
                1int
            } else {
                0int
            }),
            i.dx == (if right {
                1int
            } else if left {
                -1int
            } else {
                0int
            }),
            i.turn_only == turn_only,
            i.wait == wait,
            i.interact == interact,
    {
        let mut dx: i32 = 0;
        let mut dy: i32 = 0;
        if up {
            dy = 1;
        }
        if left {
            dx = -1;
        }
        if down {
            dy = -1;
        }
        if right {
            dx = 1;
        }
        PlayerInput { dx, dy, turn_only, wait, interact }
    }
}

/// The handles of the records with a behaviour, in table order.
pub open spec fn ai_entities(rs: Seq<EntityRecord>) -> Seq<Entity> {
    rs.filter(|r: EntityRecord| r.ai is Some).map_values(|r: EntityRecord| r.entity)
}

/// Some record of `w` is a staircase on `p`.
pub open spec fn staircase_at(w: World, p: PositionComponent) -> bool {
    exists|i: int|
        0 <= i < w.records().len() && #[trigger] w.records()[i].staircase is Some && w.records()[i].position
            == p
}

/// The player's combat as it enters the next floor: every buff and debuff
/// gone, and a fifth of the maximum health (rounded) restored, up to the
/// maximum.
pub open spec fn rested(c: CombatComponent) -> CombatComponent {
    let healed = c.current_health + (2 * c.max_health + 5) / 10;
    CombatComponent {
        current_health: if healed > c.max_health {
            c.max_health
        } else {
            healed as u32
        },
        strength_buff: (0, 0),
        focus_buff: (0, 0),
        agility_buff: (0, 0),
        luck_buff: (0, 0),
        magic_immune_buff: false,
        explode_on_death_buff: (0, 0),
        strength_debuff: (0, 0),
        focus_debuff: (0, 0),
        agility_debuff: (0, 0),
        luck_debuff: (0, 0),
        burn_debuff: (0, 0),
        ..c
    }
}

/// Whether the player's input is used on its turn: a direction, waiting, or
/// using what it faces while facing along an axis (facing after turning).
pub open spec fn input_used(i: PlayerInput, facing: PositionComponent) -> bool {
    let new_facing = if i.dx != 0 || i.dy != 0 {
        PositionComponent { x: i.dx, y: i.dy }
    } else {
        facing
    };
    ||| i.dx != 0 || i.dy != 0
    ||| i.wait
    ||| (i.interact && (new_facing.x == 0 || new_facing.y == 0))
}

/// The tile a move with `i` heads for: the player's tile shifted by the
/// input's direction.
pub open spec fn move_target(g: Game, i: PlayerInput) -> PositionComponent {
    let p = g.ecs.get_spec(g.player_entity).unwrap().position;
    PositionComponent { x: (p.x + i.dx) as i32, y: (p.y + i.dy) as i32 }
}

/// Whether the player's turn ends with input `i`: it waits, or it moves (a
/// direction, not only turning) onto a free tile of the bounded plane.
pub open spec fn player_acts(g: Game, i: PlayerInput) -> bool {
    ||| i.wait
    ||| (i.dx != 0 || i.dy != 0) && !i.turn_only && in_bounds(move_target(g, i)) && !g.ecs.occupied(
        move_target(g, i),
    )
}

/// The actors still to act in `g` this round: the queue, or, when it is
/// empty, every entity with a behaviour (in table order) and then the player.
pub open spec fn actors_due(g: Game) -> Seq<Entity> {
    if g.actor_queue@.len() == 0 {
        ai_entities(g.ecs.records()).push(g.player_entity)
    } else {
        g.actor_queue@
    }
}

/// The table `w` with the record of `e` carrying the behaviour `ai`.
pub open spec fn with_ai(w: World, e: Entity, ai: AI) -> Seq<EntityRecord> {
    let i = find_index(w.records(), e).unwrap();
    w.records().update(i, EntityRecord { ai: Some(AIComponent { ai }), ..w.records()[i] })
}

/// A monster's turn through the games `acted` (after its behaviour ran from
/// `g0`, leaving it the state `ai1`; see `entities::ai_turn_taken`), `kept`
/// (its record, if still there, holding that state) and `ended` (after its
/// end-of-turn effects while it can still fight; see `game::turn_ended`).
pub open spec fn monster_turn_via(g0: Game, acted: Game, ai1: AI, kept: Game, ended: Game, e: Entity) -> bool {
    let r = g0.ecs.get_spec(e).unwrap();
    &&& ai_turn_taken(r.ai.unwrap().ai, g0, ai1, acted, e)
    &&& if acted.ecs.contains_spec(e) {
        &&& kept == (Game { ecs: kept.ecs, ..acted })
        &&& kept.ecs.records() == with_ai(acted.ecs, e, ai1)
        &&& if combat_of(kept.ecs, e) is Some {
            turn_ended(kept, ended, e)
        } else {
            ended == kept
        }
    } else {
        &&& kept == acted
        &&& ended == acted
    }
}

/// The turn of the monster `e`, first in the queue of `g0`, leading to
/// `g1`: when it is on the floor with a behaviour and can fight, it acts as
/// `monster_turn_via` says; otherwise nothing happens. Then it leaves the
/// queue.
pub open spec fn monster_turn_taken(g0: Game, g1: Game, e: Entity) -> bool {
    &&& g1.actor_queue@ == g0.actor_queue@.drop_first()
    &&& match g0.ecs.get_spec(e) {
        Some(r) => if r.ai is Some && r.combat is Some {
            exists|acted: Game, ai1: AI, kept: Game, ended: Game|
                #[trigger] monster_turn_via(g0, acted, ai1, kept, ended, e) && g1 == (Game {
                    actor_queue: g1.actor_queue,
                    ..ended
                })
        } else {
            g1 == (Game { actor_queue: g1.actor_queue, ..g0 })
        },
        None => g1 == (Game { actor_queue: g1.actor_queue, ..g0 }),
    }
}

/// The player took the stairs, from `g0` to `g1`: its combat became
/// `rested`, and then the next floor was laid out (see `floor_changed`).
pub open spec fn descended(g0: Game, g1: Game) -> bool {
    exists|mid: Game|
        #[trigger] floor_changed(mid, g1) && mid == (Game { ecs: mid.ecs, ..g0 }) && mid.ecs.records()
            == with_combat(g0.ecs, g0.player_entity, rested(combat_of(g0.ecs, g0.player_entity).unwrap()))
}

/// Taking the stairs clears every buff and debuff of the player, amount
/// and turns, and heals a fifth of its maximum health (rounded), never past
/// the maximum; its other statistics stay.
pub proof fn lemma_descent_clears_effects(g0: Game, g1: Game)
    requires
        g0.wf(),
        descended(g0, g1),
    ensures
        g1.player_entity == g0.player_entity,
        combat_of(g1.ecs, g1.player_entity) is Some,
        ({
            let c0 = combat_of(g0.ecs, g0.player_entity).unwrap();
            let c = combat_of(g1.ecs, g1.player_entity).unwrap();
            &&& c.strength_buff == (0u32, 0u32)
            &&& c.focus_buff == (0u32, 0u32)
            &&& c.agility_buff == (0u32, 0u32)
            &&& c.luck_buff == (0u32, 0u32)
            &&& c.explode_on_death_buff == (0u32, 0u32)
            &&& c.strength_debuff == (0u32, 0u32)
            &&& c.focus_debuff == (0u32, 0u32)
            &&& c.agility_debuff == (0u32, 0u32)
            &&& c.luck_debuff == (0u32, 0u32)
            &&& c.burn_debuff == (0u32, 0u32)
            &&& !c.magic_immune_buff
            &&& c.max_health == c0.max_health
            &&& c.strength == c0.strength && c.focus == c0.focus && c.agility == c0.agility && c.luck == c0.luck
            &&& c.current_health == if c0.current_health + (2 * c0.max_health + 5) / 10 > c0.max_health {
                c0.max_health as int
            } else {
                c0.current_health + (2 * c0.max_health + 5) / 10
            }
        }),
{
    let mid = choose|mid: Game|
        #[trigger] floor_changed(mid, g1) && mid == (Game { ecs: mid.ecs, ..g0 }) && mid.ecs.records()
            == with_combat(g0.ecs, g0.player_entity, rested(combat_of(g0.ecs, g0.player_entity).unwrap()));
    let c0 = combat_of(g0.ecs, g0.player_entity).unwrap();
    crate::game::lemma_with_combat(g0.ecs, g0.player_entity, rested(c0));
    crate::world::lemma_find_index(g0.ecs.records(), g0.player_entity);
    assert(combat_of(mid.ecs, mid.player_entity) == Some(rested(c0)));
}

/// The tile the player faces in `g`.
pub open spec fn faced_tile(g: Game) -> PositionComponent {
    let p = g.ecs.get_spec(g.player_entity).unwrap().position;
    PositionComponent {
        x: (p.x + g.player_facing_direction.x) as i32,
        y: (p.y + g.player_facing_direction.y) as i32,
    }
}

/// The player's turn with input `i`, from `g0` to `g1`, through `moved`
/// and `took_stairs`: a direction turns the player that way and, unless
/// only turning, moves it onto the tile there when that tile is free and
/// within the plane (see `player_acts`); then using what it faces while
/// facing along an axis takes the stairs when a staircase stands there
/// (see `descended`); then, when the player moved or waited, its
/// end-of-turn effects follow (see `turn_ended`) and it leaves the queue.
pub open spec fn player_turn_via(g0: Game, moved: Game, took_stairs: Game, g1: Game, i: PlayerInput) -> bool {
    let turned = Game {
        player_facing_direction: if i.dx != 0 || i.dy != 0 {
            PositionComponent { x: i.dx, y: i.dy }
        } else {
            g0.player_facing_direction
        },
        ..g0
    };
    let steps = (i.dx != 0 || i.dy != 0) && !i.turn_only && in_bounds(move_target(g0, i)) && !g0.ecs.occupied(
        move_target(g0, i),
    );
    let f = turned.player_facing_direction;
    &&& steps ==> moved == (Game { ecs: moved.ecs, ..turned }) && moved.ecs.records() == crate::movement::moved_to(
        g0.ecs,
        g0.player_entity,
        move_target(g0, i),
    )
    &&& !steps ==> moved == turned
    &&& if i.interact && (f.x == 0 || f.y == 0) && staircase_at(moved.ecs, faced_tile(moved)) {
        descended(moved, took_stairs)
    } else {
        took_stairs == moved
    }
    &&& if player_acts(g0, i) {
        &&& g1.actor_queue@ == took_stairs.actor_queue@.drop_first()
        &&& exists|ended: Game|
            #[trigger] turn_ended(took_stairs, ended, g0.player_entity) && g1 == (Game {
                actor_queue: g1.actor_queue,
                ..ended
            })
    } else {
        g1 == took_stairs
    }
}

impl Game {
    /// A new game: the player (drawn with the game's generator from
    /// `rng_seed`) at the origin facing up, ten turns before passive
    /// healing, an empty inventory, and the first floor laid out with the
    /// dungeon's generator from `dungeon_generation_seed`.
    pub fn new(dungeon_generation_seed: u64, rng_seed: u64) -> (g: Game)
        ensures
            g.wf(),
            g.floor_number == 1,
            g.player_facing_direction == (PositionComponent { x: 0, y: 1 }),
            g.player_turns_until_passive_healing == 10,
            g.actor_queue@.len() == 0,
            forall|k: int| 0 <= k < 16 ==> g.player_inventory[k] is None,
            floor_laid_out(g),
            has_staircase_in(g.ecs, crate::generate_dungeon::staircase_room(g.rooms@)),
            ({
                let r = g.ecs.get_spec(g.player_entity).unwrap();
                &&& r.position == (PositionComponent { x: 0, y: 0 })
                &&& r.name@ == "Player"@
                &&& r.combat matches Some(c) && crate::entities::fresh_combat(
                    c,
                    (12, 30),
                    (4, 12),
                    (4, 12),
                    (4, 12),
                    (4, 12),
                    Team::Player,
                )
            }),
    {
        let mut ecs = World::new();
        let mut rng = pcg_from_seed(rng_seed);
        let player_entity = create_player(&mut ecs, &mut rng);
        let mut game = Game {
            ecs,
            actor_queue: VecDeque::new(),
            player_entity,
            player_facing_direction: PositionComponent { x: 0, y: 1 },
            player_inventory: [None; 16],
            player_turns_until_passive_healing: 10,
            rooms: Vec::new(),
            floor_positions: Vec::new(),
            floor_number: 0,
            rng,
            dungeon_generation_rng: pcg_from_seed(dungeon_generation_seed),
            animation_queue: VecDeque::new(),
        };
        proof {
            crate::world::lemma_find_index(game.ecs.records(), player_entity);
            assert(game.ecs.records()[0].entity == player_entity);
        }
        game.next_floor();
        game
    }

    /// Queues every entity with a behaviour, in table order, then the player.
    fn queue_actors(&mut self)
        requires
            old(self).actor_queue@.len() == 0,
        ensures
            *final(self) == (Game { actor_queue: final(self).actor_queue, ..*old(self) }),
            final(self).actor_queue@ == ai_entities(old(self).ecs.records()).push(old(self).player_entity),
    {
        let n = self.ecs.len();
        let mut i: usize = 0;
        let ghost rs = self.ecs.records();
        while i < n
            invariant
                n == rs.len(),
                rs == self.ecs.records(),
                i <= n,
                *self == (Game { actor_queue: self.actor_queue, ..*old(self) }),
                self.actor_queue@ == ai_entities(rs.subrange(0, i as int)),
            decreases n - i,
        {
            let r = self.ecs.record_at(i);
            proof {
                assert(rs.subrange(0, i + 1).drop_last() =~= rs.subrange(0, i as int));
                reveal_with_fuel(Seq::filter, 1);
            }
            if r.ai.is_some() {
                self.actor_queue.push_back(r.entity);
            }
            proof {
                let f0 = rs.subrange(0, i as int).filter(|r: EntityRecord| r.ai is Some);
                let f1 = rs.subrange(0, i + 1).filter(|r: EntityRecord| r.ai is Some);
                if r.ai is Some {
                    assert(f1 == f0.push(r));
                    assert(f1.map_values(|r: EntityRecord| r.entity) =~= f0.map_values(
                        |r: EntityRecord| r.entity,
                    ).push(r.entity));
                } else {
                    assert(f1 == f0);
                }
            }
            i = i + 1;
        }
        assert(rs.subrange(0, n as int) =~= rs);
        self.actor_queue.push_back(self.player_entity);
    }

    /// Whether a staircase stands on `p`.
    pub fn staircase_on(&self, p: PositionComponent) -> (r: bool)
        ensures
            r == staircase_at(self.ecs, p),
    {
        let n = self.ecs.len();
        let mut i: usize = 0;
        while i < n
            invariant
                n == self.ecs.records().len(),
                i <= n,
                forall|j: int|
                    0 <= j < i ==> !(#[trigger] self.ecs.records()[j].staircase is Some
                        && self.ecs.records()[j].position == p),
            decreases n - i,
        {
            let r = self.ecs.record_at(i);
            if r.staircase.is_some() && r.position == p {
                return true;
            }
            i = i + 1;
        }
        false
    }

    /// The player takes the stairs: its buffs and debuffs are cleared, it
    /// recovers a fifth of its maximum health, and the next floor is laid out.
    fn descend(&mut self)
        requires
            old(self).wf(),
        ensures
            final(self).wf(),
            final(self).player_entity == old(self).player_entity,
            final(self).player_facing_direction == old(self).player_facing_direction,
            final(self).player_turns_until_passive_healing == old(self).player_turns_until_passive_healing,
            final(self).actor_queue == old(self).actor_queue,
            combat_of(final(self).ecs, final(self).player_entity) == Some(
                rested(combat_of(old(self).ecs, old(self).player_entity).unwrap()),
            ),
            floor_laid_out(*final(self)),
            descended(*old(self), *final(self)),
            ({
                let c = combat_of(final(self).ecs, final(self).player_entity).unwrap();
                &&& c.strength_buff == (0u32, 0u32)
                &&& c.focus_buff == (0u32, 0u32)
                &&& c.agility_buff == (0u32, 0u32)
                &&& c.luck_buff == (0u32, 0u32)
                &&& c.explode_on_death_buff == (0u32, 0u32)
                &&& c.strength_debuff == (0u32, 0u32)
                &&& c.focus_debuff == (0u32, 0u32)
                &&& c.agility_debuff == (0u32, 0u32)
                &&& c.luck_debuff == (0u32, 0u32)
                &&& c.burn_debuff == (0u32, 0u32)
                &&& !c.magic_immune_buff
            }),
    {
        let player = self.player_entity;
        let rec = self.ecs.get(player).unwrap();
        proof {
            crate::world::lemma_find_index(self.ecs.records(), player);
            let i = find_index(self.ecs.records(), player).unwrap();
            assert(record_ok(self.ecs.records()[i]));
        }
        let c = rec.combat.unwrap();
        let healed: u64 = c.current_health as u64 + (2 * (c.max_health as u64) + 5) / 10;
        let rested_c = CombatComponent {
            current_health: if healed > c.max_health as u64 {
                c.max_health
            } else {
                healed as u32
            },
            strength_buff: (0, 0),
            focus_buff: (0, 0),
            agility_buff: (0, 0),
            luck_buff: (0, 0),
            magic_immune_buff: false,
            explode_on_death_buff: (0, 0),
            strength_debuff: (0, 0),
            focus_debuff: (0, 0),
            agility_debuff: (0, 0),
            luck_debuff: (0, 0),
            burn_debuff: (0, 0),
            ..c
        };
        self.set_combat(player, rested_c);
        let ghost mid = *self;
        self.next_floor();
        assert(floor_changed(mid, *self));
    }

    /// The player's turn with input `input` (see `run`). Returns whether the
    /// input was used.
    fn player_turn(&mut self, input: PlayerInput) -> (used: bool)
        requires
            old(self).wf(),
            input_ok(input),
            old(self).actor_queue@.len() > 0,
        ensures
            final(self).wf(),
            final(self).player_entity == old(self).player_entity,
            used == input_used(input, old(self).player_facing_direction),
            final(self).player_facing_direction == (if input.dx != 0 || input.dy != 0 {
                PositionComponent { x: input.dx, y: input.dy }
            } else {
                old(self).player_facing_direction
            }),
            final(self).actor_queue@ == if player_acts(*old(self), input) {
                old(self).actor_queue@.drop_first()
            } else {
                old(self).actor_queue@
            },
            exists|moved: Game, took_stairs: Game|
                #[trigger] player_turn_via(*old(self), moved, took_stairs, *final(self), input),
    {
        let ghost g0 = *self;
        let mut acted = false;
        let mut used = false;
        if input.dx != 0 || input.dy != 0 {
            self.player_facing_direction = PositionComponent { x: input.dx, y: input.dy };
            if !input.turn_only {
                let rec = self.ecs.get(self.player_entity).unwrap();
                proof {
                    crate::world::lemma_find_index(self.ecs.records(), self.player_entity);
                    let i = find_index(self.ecs.records(), self.player_entity).unwrap();
                    assert(record_ok(self.ecs.records()[i]));
                }
                let target = PositionComponent { x: rec.position.x + input.dx, y: rec.position.y + input.dy };
                if crate::world::in_bounds_position(target) && !self.ecs.is_occupied(target) {
                    self.move_player(target);
                    acted = true;
                }
            }
            used = true;
        }
        let ghost moved = *self;
        if input.wait {
            acted = true;
            used = true;
        }
        if input.interact && (self.player_facing_direction.x == 0 || self.player_facing_direction.y == 0) {
            let rec = self.ecs.get(self.player_entity).unwrap();
            proof {
                crate::world::lemma_find_index(self.ecs.records(), self.player_entity);
                let i = find_index(self.ecs.records(), self.player_entity).unwrap();
                assert(record_ok(self.ecs.records()[i]));
            }
            let facing = self.player_facing_direction;
            let target = PositionComponent { x: rec.position.x + facing.x, y: rec.position.y + facing.y };
            if self.staircase_on(target) {
                self.descend();
            }
            used = true;
        }
        let ghost took_stairs = *self;
        if acted {
            self.entity_end_of_turn(self.player_entity);
            let ghost ended = *self;
            self.actor_queue.pop_front();
            assert(turn_ended(took_stairs, ended, g0.player_entity));
        }
        assert(player_turn_via(g0, moved, took_stairs, *self, input));
        used
    }

    /// One step of the game, given the keys read for it (`None` when no
    /// input may be read yet). Nothing happens while the player is dead or an
    /// animation is queued. Otherwise, with no one left to act, every entity
    /// with a behaviour (in table order) and then the player are queued; then
    /// whoever is first acts. On the player's turn a direction turns the
    /// player that way and, unless only turning, moves it there when no
    /// entity stands there; waiting passes the turn; using what it faces
    /// while facing along an axis takes the stairs on that tile, if any. The
    /// turn ends (end-of-turn effects, then the next actor) when the player
    /// moved or waited. A monster still there runs its behaviour, keeps its
    /// new state, and has its end-of-turn effects while it can fight; then
    /// the next actor follows. Returns whether the input was used.
    pub fn run(&mut self, input: Option<PlayerInput>) -> (used: bool)
        requires
            old(self).wf(),
            input matches Some(i) ==> input_ok(i),
        ensures
            final(self).wf(),
            final(self).player_entity == old(self).player_entity,
            used ==> input is Some,
            (combat_of(old(self).ecs, old(self).player_entity).unwrap().current_health == 0
                || old(self).animation_queue@.len() > 0) ==> *final(self) == *old(self) && !used,
            ({
                let q = actors_due(*old(self));
                let first = Game { actor_queue: final(self).actor_queue, ..*old(self) };
                (combat_of(old(self).ecs, old(self).player_entity).unwrap().current_health != 0
                    && old(self).animation_queue@.len() == 0) ==> if q[0] != old(self).player_entity {
                    &&& final(self).actor_queue@ == q.drop_first()
                    &&& !used
                    &&& exists|g_start: Game|
                        #[trigger] monster_turn_taken(g_start, *final(self), q[0]) && g_start == (Game {
                            actor_queue: g_start.actor_queue,
                            ..*old(self)
                        }) && g_start.actor_queue@ == q
                } else {
                    match input {
                        None => *final(self) == first && final(self).actor_queue@ == q && !used,
                        Some(i) => {
                            &&& used == input_used(i, old(self).player_facing_direction)
                            &&& final(self).player_facing_direction == (if i.dx != 0 || i.dy != 0 {
                                PositionComponent { x: i.dx, y: i.dy }
                            } else {
                                old(self).player_facing_direction
                            })
                            &&& final(self).actor_queue@ == if player_acts(first, i) {
                                q.drop_first()
                            } else {
                                q
                            }
                            &&& exists|g_start: Game, moved: Game, took_stairs: Game|
                                #[trigger] player_turn_via(g_start, moved, took_stairs, *final(self), i)
                                    && g_start == (Game { actor_queue: g_start.actor_queue, ..*old(self) })
                                    && g_start.actor_queue@ == q
                        },
                    }
                }
            }),
    {
        let player_rec = self.ecs.get(self.player_entity).unwrap();
        let health = player_rec.combat.unwrap().current_health;
        if health == 0 || self.animation_queue.len() > 0 {
            return false;
        }
        if self.actor_queue.len() == 0 {
            self.queue_actors();
        }
        let ghost g_start = *self;
        let entity = self.actor_queue[0];
        if entity == self.player_entity {
            match input {
                Some(i) => self.player_turn(i),
                None => false,
            }
        } else {
            self.monster_turn(entity);
            assert(monster_turn_taken(g_start, *self, entity));
            false
        }
    }

    /// The turn of `entity`, first in the queue and not the player.
    fn monster_turn(&mut self, entity: Entity)
        requires
            old(self).wf(),
            old(self).actor_queue@.len() > 0,
            entity != old(self).player_entity,
        ensures
            final(self).wf(),
            final(self).player_entity == old(self).player_entity,
            monster_turn_taken(*old(self), *final(self), entity),
    {
        let ghost g0 = *self;
        let ghost mut acted = *self;
        let ghost mut ai1 = AI::PhaseBat(crate::entities::phase_bat::PhaseBatAI { chase_target: None, patrol_goal: None });
        let ghost mut kept = *self;
        match self.ecs.get(entity) {
            Some(rec) => match rec.ai {
                Some(ai_component) => {
                    if self.has_combat(entity) {
                        let mut ai = ai_component.ai;
                        let ghost queue = self.actor_queue;
                        ai.run(entity, self);
                        proof {
                            acted = *self;
                            ai1 = ai;
                            kept = *self;
                        }
                        match self.ecs.index_of(entity) {
                            Some(idx) => {
                                proof {
                                    crate::world::lemma_find_index(self.ecs.records(), entity);
                                }
                                let current = self.ecs.record_at(idx);
                                assert(record_ok(self.ecs.records()[idx as int]));
                                let ghost before = self.ecs;
                                self.ecs.set_record(
                                    idx,
                                    EntityRecord { ai: Some(AIComponent { ai }), ..current },
                                );
                                proof {
                                    crate::world::lemma_find_index(before.records(), self.player_entity);
                                    crate::world::lemma_find_index(self.ecs.records(), self.player_entity);
                                    crate::world::lemma_find_index(before.records(), entity);
                                    kept = *self;
                                }
                                if self.has_combat(entity) {
                                    self.entity_end_of_turn(entity);
                                }
                            },
                            None => {},
                        }
                        assert(monster_turn_via(g0, acted, ai1, kept, *self, entity));
                    }
                },
                None => {},
            },
            None => {},
        }
        let ghost ended = *self;
        self.actor_queue.pop_front();
        proof {
            if g0.ecs.get_spec(entity) matches Some(r) && r.ai is Some && r.combat is Some {
                assert(monster_turn_via(g0, acted, ai1, kept, ended, entity));
                assert(*self == (Game { actor_queue: self.actor_queue, ..ended }));
            }
        }
    }
}

} // verus!
