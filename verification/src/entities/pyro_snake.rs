//! The pyro snake: hunts like the phase bat and sets its victims on fire.

use crate::components::{CombatComponent, PositionComponent, SpriteComponent, Team};
use crate::entities::hunting::{
    attack_target, chase_choice, choose_attack_target, choose_patrol_goal, hunt_step,
    patrol_goal_for_turn, quarry_for_turn, step_outcome,
};
use crate::entities::{AIComponent, AI};
use crate::game::{combat_of, health_after, same_setting, with_combat, Game};
use crate::generate_dungeon::in_interior;
use crate::movement::Goal;
use crate::rng::{gen_range_u32, gen_ratio};
use crate::world::{Entity, EntityRecord};
use vstd::prelude::*;

verus! {

/// What a pyro snake remembers: whom it chases and where it patrols to.
#[derive(Debug, Clone, Copy, PartialEq, Eq)]
pub struct PyroSnakeAI {
    pub chase_target: Option<Entity>,
    pub patrol_goal: Option<PositionComponent>,
}


/// A pyro snake at `position`: 12 to 19 health, strength 6 to 8, luck 12
/// to 14, agility 6 to 8 and focus 2 to 4 (drawn in that order), on the
/// enemy team, with nothing to chase and no patrol goal yet.
pub fn create_pyro_snake(position: PositionComponent, game: &mut Game) -> (e: Entity)
    requires
        old(game).wf(),
        crate::world::in_bounds(position),
    ensures
        final(game).wf(),
        final(game).player_entity == old(game).player_entity,
        final(game).rooms@ == old(game).rooms@,
        final(game).floor_positions@ == old(game).floor_positions@,
        final(game).floor_number == old(game).floor_number,
        final(game).player_turns_until_passive_healing == old(game).player_turns_until_passive_healing,
        final(game).player_facing_direction == old(game).player_facing_direction,
        final(game).actor_queue == old(game).actor_queue,
        final(game).player_inventory == old(game).player_inventory,
        final(game).animation_queue == old(game).animation_queue,
        final(game).ecs.records().len() == old(game).ecs.records().len() + 1,
        final(game).ecs.records().drop_last() == old(game).ecs.records(),
        e.id == old(game).ecs.next_id(),
        final(game).ecs.next_id() >= old(game).ecs.next_id(),
        ({
            let r = final(game).ecs.records().last();
            &&& r.entity == e
            &&& r.name@ == "Pyro Snake"@
            &&& r.position == position
            &&& r.sprite.id@ == "pyro_snake"@
            &&& r.staircase is None
            &&& r.ai == Some(AIComponent { ai: AI::PyroSnake(PyroSnakeAI { chase_target: None, patrol_goal: None }) })
            &&& r.combat matches Some(c) && crate::entities::fresh_combat(
                c,
                (12, 19),
                (6, 8),
                (2, 4),
                (6, 8),
                (12, 14),
                Team::Enemy,
            )
        }),
{
    let max_health = gen_range_u32(&mut game.rng, 12, 20);
    let strength = gen_range_u32(&mut game.rng, 6, 9);
    let luck = gen_range_u32(&mut game.rng, 12, 15);
    let agility = gen_range_u32(&mut game.rng, 6, 9);
    let focus = gen_range_u32(&mut game.rng, 2, 5);
    let c = CombatComponent::new(max_health, strength, focus, agility, luck, Team::Enemy);
    proof {
        reveal_strlit("Pyro Snake");
        reveal_strlit("pyro_snake");
    }
    let ai = AIComponent { ai: AI::PyroSnake(PyroSnakeAI { chase_target: None, patrol_goal: None }) };
    let ghost before = game.ecs;
    assert(before == old(game).ecs);
    assert(before.contains_spec(game.player_entity));
    let e = game.ecs.spawn(
        "Pyro Snake",
        position,
        SpriteComponent { id: "pyro_snake" },
        Some(c),
        Some(ai),
        None,
    );
    assert(game.ecs.records().drop_last() =~= before.records());
    assert(game.ecs.get_spec(game.player_entity) == before.get_spec(game.player_entity));
    e
}

/// The least damage of a pyro snake's bite: its luck divided by 1.3,
/// rounded to the nearest integer (no tie can occur).
pub open spec fn bite_base(luck: u32) -> int {
    (20 * luck + 13) / 26
}

/// What a bite did to `e`: nothing on a miss; on a hit `e` loses `damage`
/// health (never below zero) and, at zero health, is removed unless it is
/// the player.
pub open spec fn bite_outcome(before: Game, after: Game, e: Entity, hit: bool, damage: int) -> bool {
    let c = combat_of(before.ecs, e).unwrap();
    let health = health_after(c.current_health, damage);
    if !hit {
        after.ecs.records() == before.ecs.records()
    } else if health == 0 && e != before.player_entity {
        after.ecs.records() == before.ecs.records().filter(|r: EntityRecord| r.entity != e)
    } else {
        after.ecs.records() == with_combat(before.ecs, e, CombatComponent { current_health: health, ..c })
    }
}

/// A burn worth less than 12 damage in all (damage per turn times turns
/// left) is replaced by one of 3 damage for 4 turns.
pub open spec fn burn_after_bite(c: CombatComponent) -> CombatComponent {
    if c.burn_debuff.0 * c.burn_debuff.1 < 12 {
        CombatComponent { burn_debuff: (3, 4), ..c }
    } else {
        c
    }
}

/// What a snake's bite did (see `PyroSnakeAI::try_attack`): with
/// `bitten` some target, that one is whom the snake on its tile would strike
/// (see `hunting::attack_target`) and the bite went as `bite_outcome` says,
/// a hit dealing from `bite_base(luck)` to `bite_base(luck) + 3` and never
/// missing an agility of 0 nor hitting one of 100; otherwise nothing
/// changed, there being no one to bite who can be hurt. Besides the table,
/// only the game's generator moves on.
pub open spec fn snake_strike(
    before: Game,
    after: Game,
    this_entity: Entity,
    chase_target: Option<Entity>,
    bitten: Option<Entity>,
) -> bool {
    let here = before.ecs.get_spec(this_entity).unwrap().position;
    let target = attack_target(before.ecs, here, chase_target, true);
    let luck = combat_of(before.ecs, this_entity).unwrap().spec_luck();
    match bitten {
        Some(e) => {
            &&& target == Some(e)
            &&& combat_of(before.ecs, e) is Some
            &&& exists|hit: bool, damage: int|
                {
                    &&& hit ==> bite_base(luck) <= damage < bite_base(luck) + 4
                    &&& combat_of(before.ecs, e).unwrap().spec_agility() == 0 ==> hit
                    &&& combat_of(before.ecs, e).unwrap().spec_agility() == 100 ==> !hit
                    &&& #[trigger] bite_outcome(before, after, e, hit, damage)
                }
        },
        None => {
            &&& after == before
            &&& target matches Some(e) ==> combat_of(before.ecs, e) is None
        },
    }
}

/// One turn of the snake `this_entity`, from the game `g0` and memory `s0`
/// to `g1` and `s1`: it settles on its quarry (only the player's side) and
/// on a patrol goal `goal` (reaching the game `mid`), bites (reaching
/// `struck`), and then sets the bitten one, if still there, on fire (see
/// `burn_after_bite`), or, having bitten no one, moves (see
/// `hunting::hunt_step`).
pub open spec fn snake_turn(
    g0: Game,
    s0: PyroSnakeAI,
    mid: Game,
    struck: Game,
    bitten: Option<Entity>,
    goal: Option<PositionComponent>,
    g1: Game,
    s1: PyroSnakeAI,
    this_entity: Entity,
) -> bool {
    let here = g0.ecs.get_spec(this_entity).unwrap().position;
    &&& quarry_for_turn(g0.ecs, here, true, s0.chase_target, s1.chase_target)
    &&& patrol_goal_for_turn(g0, mid, here, s0.patrol_goal, goal)
    &&& snake_strike(mid, struck, this_entity, s1.chase_target, bitten)
    &&& match bitten {
        Some(t) => {
            &&& s1.patrol_goal == goal
            &&& match combat_of(struck.ecs, t) {
                Some(c) => {
                    &&& g1 == (Game { ecs: g1.ecs, ..struck })
                    &&& g1.ecs.records() == with_combat(struck.ecs, t, burn_after_bite(c))
                },
                None => g1 == struck,
            }
        },
        None => hunt_step(struck, g1, this_entity, s1.chase_target, goal, s1.patrol_goal),
    }
}

/// Whether some course of a snake's turn leads from `g0`, `s0` to `g1`,
/// `s1` (see `snake_turn`).
pub open spec fn snake_turn_taken(g0: Game, s0: PyroSnakeAI, g1: Game, s1: PyroSnakeAI, this_entity: Entity) -> bool {
    exists|mid: Game, struck: Game, bitten: Option<Entity>, goal: Option<PositionComponent>|
        #[trigger] snake_turn(g0, s0, mid, struck, bitten, goal, g1, s1, this_entity)
}

impl PyroSnakeAI {
    /// Whether the snake keeps chasing `chase_target`: exactly while it
    /// exists (see `hunting::is_chase_target_still_valid`).
    pub fn is_chase_target_still_valid(this_entity: Entity, chase_target: Entity, game: &Game) -> (r: bool)
        requires
            game.wf(),
            game.ecs.contains_spec(this_entity),
        ensures
            r == game.ecs.contains_spec(chase_target),
    {
        crate::entities::hunting::is_chase_target_still_valid(this_entity, chase_target, &game.ecs)
    }

    /// A quarry for a snake on `this_position`: someone of the player's side
    /// beside the nearest tile reached within two steps.
    pub fn find_chase_target(this_position: PositionComponent, game: &Game) -> (r: Option<Entity>)
        requires
            game.wf(),
        ensures
            chase_choice(game.ecs, this_position, true, r),
    {
        crate::entities::hunting::find_chase_target(this_position, &game.ecs, true)
    }

    /// Bites whom the snake on its tile would strike (see
    /// `hunting::attack_target`; only the player's side). The bite misses
    /// with probability (target's agility)/100; a hit deals from
    /// `bite_base(luck)` to `bite_base(luck) + 3` damage. Returns the target
    /// bitten, hit or not; when there is none, nothing changes.
    pub fn try_attack(this_entity: Entity, chase_target: Option<Entity>, game: &mut Game) -> (r: Option<
        Entity,
    >)
        requires
            old(game).wf(),
            combat_of(old(game).ecs, this_entity) is Some,
        ensures
            final(game).wf(),
            *final(game) == (Game { ecs: final(game).ecs, rng: final(game).rng, ..*old(game) }),
            snake_strike(*old(game), *final(game), this_entity, chase_target, r),
    {
        let this_record = game.ecs.get(this_entity).unwrap();
        proof {
            crate::world::lemma_find_index(game.ecs.records(), this_entity);
            let i = crate::world::find_index(game.ecs.records(), this_entity).unwrap();
            assert(crate::world::record_ok(game.ecs.records()[i]));
        }
        let this_combat = this_record.combat.unwrap();
        let target = match choose_attack_target(&game.ecs, this_record.position, chase_target, true) {
            Some(t) => t,
            None => {
                return None;
            },
        };
        let target_record = match game.ecs.get(target) {
            Some(r) => r,
            None => {
                return None;
            },
        };
        let target_combat = match target_record.combat {
            Some(c) => c,
            None => {
                return None;
            },
        };
        proof {
            crate::world::lemma_find_index(game.ecs.records(), target);
            let i = crate::world::find_index(game.ecs.records(), target).unwrap();
            assert(crate::world::record_ok(game.ecs.records()[i]));
        }
        let ghost before = *game;
        let missed = gen_ratio(&mut game.rng, target_combat.get_agility(), 100);
        if missed {
            assert(bite_outcome(before, *game, target, false, 0));
            return Some(target);
        }
        let least = (this_combat.get_luck() * 20 + 13) / 26;
        let damage = gen_range_u32(&mut game.rng, least, least + 4);
        let health = if damage >= target_combat.current_health {
            0
        } else {
            target_combat.current_health - damage
        };
        if health == 0 && target != game.player_entity {
            game.ecs.despawn(target);
        } else {
            game.set_combat(target, CombatComponent { current_health: health, ..target_combat });
        }
        assert(bite_outcome(before, *game, target, true, damage as int));
        Some(target)
    }

    /// Steps the snake towards `goal` (see `hunting::move_towards`).
    pub fn move_towards(this_entity: Entity, goal: Goal, game: &mut Game) -> (found: bool)
        requires
            old(game).wf(),
            old(game).ecs.contains_spec(this_entity),
        ensures
            final(game).wf(),
            *final(game) == (Game { ecs: final(game).ecs, ..*old(game) }),
            step_outcome(old(game).ecs, final(game).ecs, this_entity, goal, found),
            final(game).ecs.records().len() == old(game).ecs.records().len(),
            forall|e: Entity| #[trigger] final(game).ecs.contains_spec(e) == old(game).ecs.contains_spec(e),
    {
        crate::entities::hunting::move_towards(this_entity, goal, game)
    }

    /// One turn of a pyro snake: like the phase bat's (see
    /// `PhaseBatAI::run`), but it hunts only the player's side, draws the
    /// tile of a new patrol goal with the dungeon's generator, bites instead
    /// of striking (see `try_attack`), and sets a bitten target that is still
    /// there on fire (see `burn_after_bite`) instead of growing more agile.
    pub fn run(&mut self, this_entity: Entity, game: &mut Game)
        requires
            old(game).wf(),
            combat_of(old(game).ecs, this_entity) is Some,
        ensures
            final(game).wf(),
            same_setting(*old(game), *final(game)),
            final(game).ecs.records().len() <= old(game).ecs.records().len(),
            forall|e: Entity| #[trigger] final(game).ecs.contains_spec(e) ==> old(game).ecs.contains_spec(e),
            final(self).chase_target matches Some(t) ==> old(game).ecs.contains_spec(t),
            (old(self).chase_target matches Some(t) && old(game).ecs.contains_spec(t)) ==> final(self).chase_target
                == old(self).chase_target,
            final(self).patrol_goal matches Some(g) ==> old(self).patrol_goal == Some(g) || exists|k: int|
                0 <= k < old(game).rooms@.len() && in_interior(#[trigger] old(game).rooms@[k], g),
            snake_turn_taken(*old(game), *old(self), *final(game), *final(self), this_entity),
    {
        let ghost start = *game;
        let ghost s0 = *self;
        let this_position = game.ecs.get(this_entity).unwrap().position;
        match self.chase_target {
            Some(t) => {
                if !Self::is_chase_target_still_valid(this_entity, t, game) {
                    self.chase_target = None;
                }
            },
            None => {},
        }
        if self.chase_target.is_none() {
            let found = Self::find_chase_target(this_position, game);
            proof {
                if let Some(e) = found {
                    crate::entities::hunting::lemma_chase_choice_exists(game.ecs, this_position, true, e);
                }
            }
            self.chase_target = found;
        }
        let needs_goal = match self.patrol_goal {
            Some(g) => g == this_position,
            None => true,
        };
        if needs_goal {
            self.patrol_goal = Some(choose_patrol_goal(game, this_position, true));
        }
        let ghost mid = *game;
        let ghost before_bite = *game;
        let ghost goal = self.patrol_goal;
        let bitten = Self::try_attack(this_entity, self.chase_target, game);
        let ghost struck = *game;
        match bitten {
            Some(target) => {
                proof {
                    lemma_bite_keeps(before_bite, *game, target);
                }
                match game.ecs.get(target) {
                    Some(rec) => match rec.combat {
                        Some(c) => {
                            proof {
                                crate::world::lemma_find_index(game.ecs.records(), target);
                                let i = crate::world::find_index(game.ecs.records(), target).unwrap();
                                assert(crate::world::record_ok(game.ecs.records()[i]));
                                let a = c.burn_debuff.0 as int;
                                let b = c.burn_debuff.1 as int;
                                assert(a * b <= 4294967295 * 4294967295) by (nonlinear_arith)
                                    requires
                                        0 <= a <= 4294967295,
                                        0 <= b <= 4294967295,
                                ;
                            }
                            let total_burn = c.burn_debuff.0 as u64 * c.burn_debuff.1 as u64;
                            if total_burn < 12 {
                                game.set_combat(target, CombatComponent { burn_debuff: (3, 4), ..c });
                            } else {
                                proof {
                                    crate::game::lemma_with_same_combat(game.ecs, target);
                                }
                            }
                        },
                        None => {},
                    },
                    None => {},
                }
            },
            None => match self.chase_target {
                Some(t) => match game.ecs.get(t) {
                    Some(target_record) => {
                        let found = Self::move_towards(this_entity, Goal::NextTo(target_record.position), game);
                        assert(step_outcome(
                            struck.ecs,
                            game.ecs,
                            this_entity,
                            Goal::NextTo(target_record.position),
                            found,
                        ));
                    },
                    None => {},
                },
                None => match self.patrol_goal {
                    Some(g) => {
                        if !Self::move_towards(this_entity, Goal::Reach(g), game) {
                            self.patrol_goal = None;
                        }
                    },
                    None => {},
                },
            },
        }
        assert(snake_turn(start, s0, mid, struck, bitten, goal, *game, *self, this_entity));
    }
}

/// A bite removes nothing but its target and adds no record.
proof fn lemma_bite_keeps(before: Game, after: Game, e: Entity)
    requires
        combat_of(before.ecs, e) is Some,
        exists|hit: bool, damage: int| #[trigger] bite_outcome(before, after, e, hit, damage),
    ensures
        after.ecs.records().len() <= before.ecs.records().len(),
        forall|e2: Entity| #[trigger] after.ecs.contains_spec(e2) ==> before.ecs.contains_spec(e2),
{
    let (hit, damage) = choose|hit: bool, damage: int| #[trigger] bite_outcome(before, after, e, hit, damage);
    let c = combat_of(before.ecs, e).unwrap();
    let health = health_after(c.current_health, damage);
    if hit && health == 0 && e != before.player_entity {
        crate::world::lemma_filter_len(before.ecs.records(), |r: EntityRecord| r.entity != e);
        assert forall|e2: Entity| #[trigger] after.ecs.contains_spec(e2) implies before.ecs.contains_spec(e2) by {
            if e2 == e {
                crate::world::lemma_filter_absent(before.ecs.records(), e);
            } else {
                crate::world::lemma_filter_find(before.ecs.records(), |r: EntityRecord| r.entity != e, e2);
            }
        }
    } else if hit {
        crate::game::lemma_with_combat(before.ecs, e, CombatComponent { current_health: health, ..c });
    }
}

} // verus!
