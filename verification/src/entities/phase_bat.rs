//! The phase bat: chases the nearest non-enemy within reach, otherwise
//! patrols between random tiles of random rooms, and grows more agile with
//! every attack.

use crate::components::{raised_base, CombatComponent, PositionComponent, SpriteComponent, Team};
use crate::entities::hunting::{
    attack_target, chase_choice, choose_attack_target, choose_patrol_goal, hunt_step,
    patrol_goal_for_turn, quarry_for_turn, step_outcome,
};
use crate::entities::{AIComponent, AI};
use crate::game::{
    combat_of, damage_outcome, roll_possible, same_setting, with_combat, DamageInfo, DamageRoll,
    DamageType, Game,
};
use crate::generate_dungeon::in_interior;
use crate::movement::Goal;
use crate::rng::gen_range_u32;
use crate::world::Entity;
use vstd::prelude::*;

verus! {

/// What a phase bat remembers: whom it chases and where it patrols to.
#[derive(Debug, Clone, Copy, PartialEq, Eq)]
pub struct PhaseBatAI {
    pub chase_target: Option<Entity>,
    pub patrol_goal: Option<PositionComponent>,
}


/// A phase bat at `position`: 10 to 16 health, 4 to 12 in each statistic,
/// on the enemy team, with nothing to chase and no patrol goal yet.
pub fn create_phase_bat(position: PositionComponent, game: &mut Game) -> (e: Entity)
    requires
        old(game).wf(),
        crate::world::in_bounds(position),
    ensures
        final(game).wf(),
        final(game).player_entity == old(game).player_entity,
        final(game).rooms@ == old(game).rooms@,
        final(game).floor_positions@ == old(game).floor_positions@,
        final(game).floor_number == old(game).floor_number,
        final(game).player_turns_until_passive_healing == old(game).player_turns_until_passive_healing,
        final(game).player_facing_direction == old(game).player_facing_direction,
        final(game).actor_queue == old(game).actor_queue,
        final(game).player_inventory == old(game).player_inventory,
        final(game).animation_queue == old(game).animation_queue,
        final(game).ecs.records().len() == old(game).ecs.records().len() + 1,
        final(game).ecs.records().drop_last() == old(game).ecs.records(),
        e.id == old(game).ecs.next_id(),
        final(game).ecs.next_id() >= old(game).ecs.next_id(),
        ({
            let r = final(game).ecs.records().last();
            &&& r.entity == e
            &&& r.name@ == "Phase Bat"@
            &&& r.position == position
            &&& r.sprite.id@ == "phase_bat"@
            &&& r.staircase is None
            &&& r.ai == Some(AIComponent { ai: AI::PhaseBat(PhaseBatAI { chase_target: None, patrol_goal: None }) })
            &&& r.combat matches Some(c) && crate::entities::fresh_combat(
                c,
                (10, 16),
                (4, 12),
                (4, 12),
                (4, 12),
                (4, 12),
                Team::Enemy,
            )
        }),
{
    let max_health = gen_range_u32(&mut game.rng, 10, 17);
    let strength = gen_range_u32(&mut game.rng, 4, 13);
    let focus = gen_range_u32(&mut game.rng, 4, 13);
    let agility = gen_range_u32(&mut game.rng, 4, 13);
    let luck = gen_range_u32(&mut game.rng, 4, 13);
    let c = CombatComponent::new(max_health, strength, focus, agility, luck, Team::Enemy);
    proof {
        reveal_strlit("Phase Bat");
        reveal_strlit("phase_bat");
    }
    let ai = AIComponent { ai: AI::PhaseBat(PhaseBatAI { chase_target: None, patrol_goal: None }) };
    let ghost before = game.ecs;
    assert(before == old(game).ecs);
    assert(before.contains_spec(game.player_entity));
    let e = game.ecs.spawn(
        "Phase Bat",
        position,
        SpriteComponent { id: "phase_bat" },
        Some(c),
        Some(ai),
        None,
    );
    assert(game.ecs.records().drop_last() =~= before.records());
    assert(game.ecs.get_spec(game.player_entity) == before.get_spec(game.player_entity));
    e
}

/// What a bat's blow did (see `PhaseBatAI::try_attack`): with `struck`,
/// an agility blow with variance, of the bat's agility, at whom the bat on
/// its tile would strike (see `hunting::attack_target`); otherwise nothing,
/// there being no one to strike who can be hurt.
pub open spec fn bat_strike(
    before: Game,
    after: Game,
    this_entity: Entity,
    chase_target: Option<Entity>,
    struck: bool,
) -> bool {
    let here = before.ecs.get_spec(this_entity).unwrap().position;
    let target = attack_target(before.ecs, here, chase_target, false);
    let info = DamageInfo {
        target: target.unwrap(),
        damage_amount: combat_of(before.ecs, this_entity).unwrap().spec_agility(),
        damage_type: DamageType::Agility,
        variance: true,
    };
    if struck {
        &&& target is Some
        &&& exists|roll: DamageRoll| roll_possible(true, roll) && #[trigger] damage_outcome(before, after, info, roll)
    } else {
        &&& after == before
        &&& target matches Some(e) ==> combat_of(before.ecs, e) is None
    }
}

/// A combatant grown 2 agility more agile (never past 100).
pub open spec fn more_agile(c: CombatComponent) -> CombatComponent {
    CombatComponent { agility: raised_base(c.agility, 2), ..c }
}

/// One turn of the bat `this_entity`, from the game `g0` and memory `s0` to
/// `g1` and `s1`: it settles on its quarry and on a patrol goal `goal`
/// (reaching the game `mid`), strikes (reaching `struck`, having `attacked`
/// or not), and then, if it is still on the floor, either grows more agile
/// after a blow or moves (see `hunting::hunt_step`).
pub open spec fn bat_turn(
    g0: Game,
    s0: PhaseBatAI,
    mid: Game,
    struck: Game,
    attacked: bool,
    goal: Option<PositionComponent>,
    g1: Game,
    s1: PhaseBatAI,
    this_entity: Entity,
) -> bool {
    let here = g0.ecs.get_spec(this_entity).unwrap().position;
    &&& quarry_for_turn(g0.ecs, here, false, s0.chase_target, s1.chase_target)
    &&& patrol_goal_for_turn(g0, mid, here, s0.patrol_goal, goal)
    &&& bat_strike(mid, struck, this_entity, s1.chase_target, attacked)
    &&& if !struck.ecs.contains_spec(this_entity) {
        &&& g1 == struck
        &&& s1.patrol_goal == goal
    } else if attacked {
        &&& s1.patrol_goal == goal
        &&& match combat_of(struck.ecs, this_entity) {
            Some(c) => {
                &&& g1 == (Game { ecs: g1.ecs, ..struck })
                &&& g1.ecs.records() == with_combat(struck.ecs, this_entity, more_agile(c))
            },
            None => g1 == struck,
        }
    } else {
        hunt_step(struck, g1, this_entity, s1.chase_target, goal, s1.patrol_goal)
    }
}

/// Whether some course of a bat's turn leads from `g0`, `s0` to `g1`, `s1`
/// (see `bat_turn`).
pub open spec fn bat_turn_taken(g0: Game, s0: PhaseBatAI, g1: Game, s1: PhaseBatAI, this_entity: Entity) -> bool {
    exists|mid: Game, struck: Game, attacked: bool, goal: Option<PositionComponent>|
        #[trigger] bat_turn(g0, s0, mid, struck, attacked, goal, g1, s1, this_entity)
}

impl PhaseBatAI {
    /// Whether the bat keeps chasing `chase_target`: exactly while it exists
    /// (see `hunting::is_chase_target_still_valid`).
    pub fn is_chase_target_still_valid(this_entity: Entity, chase_target: Entity, game: &Game) -> (r: bool)
        requires
            game.wf(),
            game.ecs.contains_spec(this_entity),
        ensures
            r == game.ecs.contains_spec(chase_target),
    {
        crate::entities::hunting::is_chase_target_still_valid(this_entity, chase_target, &game.ecs)
    }

    /// A quarry for a bat on `this_position`: anyone not on the enemy team
    /// beside the nearest tile reached within two steps.
    pub fn find_chase_target(this_position: PositionComponent, game: &Game) -> (r: Option<Entity>)
        requires
            game.wf(),
        ensures
            chase_choice(game.ecs, this_position, false, r),
    {
        crate::entities::hunting::find_chase_target(this_position, &game.ecs, false)
    }

    /// Strikes whom the bat on its tile would strike (see
    /// `hunting::attack_target`; anyone not on the enemy team): an agility
    /// blow with variance, of the bat's agility. Returns whether a blow was
    /// dealt; when none is, nothing changes.
    pub fn try_attack(this_entity: Entity, chase_target: Option<Entity>, game: &mut Game) -> (r: bool)
        requires
            old(game).wf(),
            combat_of(old(game).ecs, this_entity) is Some,
        ensures
            final(game).wf(),
            same_setting(*old(game), *final(game)),
            final(game).ecs.records().len() <= old(game).ecs.records().len(),
            forall|e: Entity| #[trigger] final(game).ecs.contains_spec(e) ==> old(game).ecs.contains_spec(e),
            bat_strike(*old(game), *final(game), this_entity, chase_target, r),
    {
        let this_record = game.ecs.get(this_entity).unwrap();
        proof {
            crate::world::lemma_find_index(game.ecs.records(), this_entity);
            let i = crate::world::find_index(game.ecs.records(), this_entity).unwrap();
            assert(crate::world::record_ok(game.ecs.records()[i]));
        }
        let this_combat = this_record.combat.unwrap();
        let target = choose_attack_target(&game.ecs, this_record.position, chase_target, false);
        match target {
            Some(t) => {
                if game.has_combat(t) {
                    game.damage_entity(
                        DamageInfo {
                            target: t,
                            damage_amount: this_combat.get_agility(),
                            damage_type: DamageType::Agility,
                            variance: true,
                        },
                    );
                    true
                } else {
                    false
                }
            },
            None => false,
        }
    }

    /// Steps the bat towards `goal` (see `hunting::move_towards`).
    pub fn move_towards(this_entity: Entity, goal: Goal, game: &mut Game) -> (found: bool)
        requires
            old(game).wf(),
            old(game).ecs.contains_spec(this_entity),
        ensures
            final(game).wf(),
            *final(game) == (Game { ecs: final(game).ecs, ..*old(game) }),
            step_outcome(old(game).ecs, final(game).ecs, this_entity, goal, found),
            final(game).ecs.records().len() == old(game).ecs.records().len(),
            forall|e: Entity| #[trigger] final(game).ecs.contains_spec(e) == old(game).ecs.contains_spec(e),
    {
        crate::entities::hunting::move_towards(this_entity, goal, game)
    }

    /// One turn of a phase bat. It drops its quarry once the quarry is gone
    /// and, without one, looks for a new one; without a patrol goal, or
    /// standing on it, it picks a new one (a tile of a random room, drawn with
    /// the game's generator). Then it strikes (see `try_attack`) and, if it
    /// did and survived, grows 2 agility; otherwise it steps towards a tile
    /// beside its quarry or, without one, towards its patrol goal, which it
    /// drops when no walk leads there.
    pub fn run(&mut self, this_entity: Entity, game: &mut Game)
        requires
            old(game).wf(),
            combat_of(old(game).ecs, this_entity) is Some,
        ensures
            final(game).wf(),
            same_setting(*old(game), *final(game)),
            final(game).ecs.records().len() <= old(game).ecs.records().len(),
            forall|e: Entity| #[trigger] final(game).ecs.contains_spec(e) ==> old(game).ecs.contains_spec(e),
            final(self).chase_target matches Some(t) ==> old(game).ecs.contains_spec(t),
            (old(self).chase_target matches Some(t) && old(game).ecs.contains_spec(t)) ==> final(self).chase_target
                == old(self).chase_target,
            final(self).patrol_goal matches Some(g) ==> old(self).patrol_goal == Some(g) || exists|k: int|
                0 <= k < old(game).rooms@.len() && in_interior(#[trigger] old(game).rooms@[k], g),
            bat_turn_taken(*old(game), *old(self), *final(game), *final(self), this_entity),
    {
        let ghost start = *game;
        let ghost s0 = *self;
        let this_position = game.ecs.get(this_entity).unwrap().position;
        match self.chase_target {
            Some(t) => {
                if !Self::is_chase_target_still_valid(this_entity, t, game) {
                    self.chase_target = None;
                }
            },
            None => {},
        }
        if self.chase_target.is_none() {
            let found = Self::find_chase_target(this_position, game);
            proof {
                if let Some(e) = found {
                    crate::entities::hunting::lemma_chase_choice_exists(game.ecs, this_position, false, e);
                }
            }
            self.chase_target = found;
        }
        let needs_goal = match self.patrol_goal {
            Some(g) => g == this_position,
            None => true,
        };
        if needs_goal {
            self.patrol_goal = Some(choose_patrol_goal(game, this_position, false));
        }
        assert(same_setting(start, *game));
        let ghost mid = *game;
        let ghost goal = self.patrol_goal;
        let attacked = Self::try_attack(this_entity, self.chase_target, game);
        let ghost struck = *game;
        if !game.ecs.contains(this_entity) {
            assert(bat_turn(start, s0, mid, struck, attacked, goal, *game, *self, this_entity));
            return;
        }
        if attacked {
            match game.ecs.get(this_entity) {
                Some(rec) => match rec.combat {
                    Some(c) => {
                        proof {
                            crate::world::lemma_find_index(game.ecs.records(), this_entity);
                            let i = crate::world::find_index(game.ecs.records(), this_entity).unwrap();
                            assert(crate::world::record_ok(game.ecs.records()[i]));
                        }
                        let mut c2 = c;
                        c2.increase_base_agility(2);
                        assert(c2 == more_agile(c));
                        game.set_combat(this_entity, c2);
                    },
                    None => {},
                },
                None => {},
            }
        } else {
            match self.chase_target {
                Some(t) => match game.ecs.get(t) {
                    Some(target_record) => {
                        let found = Self::move_towards(this_entity, Goal::NextTo(target_record.position), game);
                        assert(step_outcome(
                            struck.ecs,
                            game.ecs,
                            this_entity,
                            Goal::NextTo(target_record.position),
                            found,
                        ));
                    },
                    None => {},
                },
                None => match self.patrol_goal {
                    Some(g) => {
                        if !Self::move_towards(this_entity, Goal::Reach(g), game) {
                            self.patrol_goal = None;
                        }
                    },
                    None => {},
                },
            }
        }
        assert(bat_turn(start, s0, mid, struck, attacked, goal, *game, *self, this_entity));
    }
}

} // verus!
