//! The creatures and fixtures of a floor, and the behaviour shared by the
//! monsters.

pub mod hunting;
pub mod phase_bat;
pub mod pyro_snake;

use crate::components::{CombatComponent, PositionComponent, SpriteComponent, StaircaseComponent, Team};
use crate::entities::phase_bat::PhaseBatAI;
use crate::entities::pyro_snake::PyroSnakeAI;
use crate::game::Game;
use crate::rng::{choose_item, gen_range_u32, gen_ratio};
use crate::world::{Entity, EntityRecord, World};
use rand_pcg::Pcg64;
use vstd::prelude::*;

verus! {

/// The behaviour of a monster and the state it keeps between turns.
#[derive(Clone, Copy)]
pub enum AI {
    PhaseBat(PhaseBatAI),
    PyroSnake(PyroSnakeAI),
}

/// One turn of the monster `this_entity` with behaviour `a0`, from the game
/// `g0` to `g1`, leaving it the behaviour `a1` of the same kind (see
/// `phase_bat::bat_turn` and `pyro_snake::snake_turn`).
pub open spec fn ai_turn_taken(a0: AI, g0: Game, a1: AI, g1: Game, this_entity: Entity) -> bool {
    match a0 {
        AI::PhaseBat(b0) => a1 matches AI::PhaseBat(b1) && crate::entities::phase_bat::bat_turn_taken(
            g0,
            b0,
            g1,
            b1,
            this_entity,
        ),
        AI::PyroSnake(s0) => a1 matches AI::PyroSnake(s1) && crate::entities::pyro_snake::snake_turn_taken(
            g0,
            s0,
            g1,
            s1,
            this_entity,
        ),
    }
}

impl AI {
    /// One turn of the monster `this_entity` with this behaviour.
    pub fn run(&mut self, this_entity: Entity, game: &mut Game)
        requires
            old(game).wf(),
            crate::game::combat_of(old(game).ecs, this_entity) is Some,
        ensures
            final(game).wf(),
            crate::game::same_setting(*old(game), *final(game)),
            final(game).ecs.records().len() <= old(game).ecs.records().len(),
            forall|e: Entity| #[trigger] final(game).ecs.contains_spec(e) ==> old(game).ecs.contains_spec(e),
            (*final(self) is PhaseBat) <==> (*old(self) is PhaseBat),
            ai_turn_taken(*old(self), *old(game), *final(self), *final(game), this_entity),
    {
        match self {
            AI::PhaseBat(bat) => bat.run(this_entity, game),
            AI::PyroSnake(snake) => snake.run(this_entity, game),
        }
    }
}

/// Marks an entity that acts on its own each turn.
#[derive(Clone, Copy)]
pub struct AIComponent {
    pub ai: AI,
}


/// The statistics a freshly made combatant may have: full health, and each
/// value within its drawing range (inclusive).
pub open spec fn fresh_combat(
    c: CombatComponent,
    health: (u32, u32),
    strength: (u32, u32),
    focus: (u32, u32),
    agility: (u32, u32),
    luck: (u32, u32),
    team: Team,
) -> bool {
    &&& c == CombatComponent::new_spec(c.max_health, c.strength, c.focus, c.agility, c.luck, team)
    &&& health.0 <= c.max_health <= health.1
    &&& strength.0 <= c.strength <= strength.1
    &&& focus.0 <= c.focus <= focus.1
    &&& agility.0 <= c.agility <= agility.1
    &&& luck.0 <= c.luck <= luck.1
}

/// The player, at the origin, with 12 to 30 health and 4 to 12 in each
/// statistic.
pub fn create_player(ecs: &mut World, rng: &mut Pcg64) -> (e: Entity)
    requires
        old(ecs).wf(),
    ensures
        final(ecs).wf(),
        e.id == old(ecs).next_id(),
        final(ecs).records().len() == old(ecs).records().len() + 1,
        final(ecs).records().drop_last() == old(ecs).records(),
        ({
            let r = final(ecs).records().last();
            &&& r.entity == e
            &&& r.name@ == "Player"@
            &&& r.position == (PositionComponent { x: 0, y: 0 })
            &&& r.sprite.id@ == "player"@
            &&& r.ai is None
            &&& r.staircase is None
            &&& r.combat matches Some(c) && fresh_combat(c, (12, 30), (4, 12), (4, 12), (4, 12), (4, 12), Team::Player)
        }),
        forall|e2: Entity| #[trigger]
            old(ecs).contains_spec(e2) ==> final(ecs).get_spec(e2) == old(ecs).get_spec(e2),
        !old(ecs).contains_spec(e) ==> final(ecs).get_spec(e) == Some(final(ecs).records().last()),
{
    let max_health = gen_range_u32(rng, 12, 31);
    let strength = gen_range_u32(rng, 4, 13);
    let focus = gen_range_u32(rng, 4, 13);
    let agility = gen_range_u32(rng, 4, 13);
    let luck = gen_range_u32(rng, 4, 13);
    let c = CombatComponent::new(max_health, strength, focus, agility, luck, Team::Player);
    proof {
        reveal_strlit("Player");
        reveal_strlit("player");
    }
    let e = ecs.spawn(
        "Player",
        PositionComponent { x: 0, y: 0 },
        SpriteComponent { id: "player" },
        Some(c),
        None,
        None,
    );
    assert(ecs.records().drop_last() =~= old(ecs).records());
    e
}

/// The staircase at `position`.
pub fn create_staircase(position: PositionComponent, ecs: &mut World) -> (e: Entity)
    requires
        old(ecs).wf(),
        crate::world::in_bounds(position),
    ensures
        final(ecs).wf(),
        e.id == old(ecs).next_id(),
        final(ecs).next_id() >= old(ecs).next_id(),
        final(ecs).records() == old(ecs).records().push(
            EntityRecord {
                entity: e,
                name: "Staircase",
                position,
                sprite: SpriteComponent { id: "staircase" },
                combat: None,
                ai: None,
                staircase: Some(StaircaseComponent {}),
            },
        ),
        forall|e2: Entity| #[trigger]
            old(ecs).contains_spec(e2) ==> final(ecs).get_spec(e2) == old(ecs).get_spec(e2),
{
    ecs.spawn(
        "Staircase",
        position,
        SpriteComponent { id: "staircase" },
        None,
        None,
        Some(StaircaseComponent {}),
    )
}

/// A wall at `position`; one wall in four (by chance) is mossy.
pub fn create_wall(position: PositionComponent, ecs: &mut World, rng: &mut Pcg64) -> (e: Entity)
    requires
        old(ecs).wf(),
        crate::world::in_bounds(position),
    ensures
        final(ecs).wf(),
        e.id == old(ecs).next_id(),
        final(ecs).next_id() >= old(ecs).next_id(),
        final(ecs).records().len() == old(ecs).records().len() + 1,
        final(ecs).records().drop_last() == old(ecs).records(),
        ({
            let r = final(ecs).records().last();
            &&& r.entity == e
            &&& r.name@ == "Wall"@
            &&& r.position == position
            &&& (r.sprite.id@ == "wall_mossy"@ || r.sprite.id@ == "wall"@)
            &&& r.combat is None
            &&& r.ai is None
            &&& r.staircase is None
        }),
        forall|e2: Entity| #[trigger]
            old(ecs).contains_spec(e2) ==> final(ecs).get_spec(e2) == old(ecs).get_spec(e2),
{
    let mossy = gen_ratio(rng, 1, 4);
    let id = if mossy {
        "wall_mossy"
    } else {
        "wall"
    };
    let e = ecs.spawn("Wall", position, SpriteComponent { id }, None, None, None);
    assert(ecs.records().drop_last() =~= old(ecs).records());
    e
}

/// The kinds of monster a floor is populated with.
#[derive(Debug, Copy, Clone, PartialEq, Eq, Structural)]
pub enum EnemyKind {
    PhaseBat,
    PyroSnake,
}

/// A monster of a kind chosen by chance, at `position`.
pub fn create_random_enemy(position: PositionComponent, game: &mut Game) -> (e: Entity)
    requires
        old(game).wf(),
        crate::world::in_bounds(position),
    ensures
        final(game).wf(),
        final(game).player_entity == old(game).player_entity,
        final(game).rooms@ == old(game).rooms@,
        final(game).floor_positions@ == old(game).floor_positions@,
        final(game).floor_number == old(game).floor_number,
        final(game).player_turns_until_passive_healing == old(game).player_turns_until_passive_healing,
        final(game).player_facing_direction == old(game).player_facing_direction,
        final(game).actor_queue == old(game).actor_queue,
        final(game).player_inventory == old(game).player_inventory,
        final(game).animation_queue == old(game).animation_queue,
        final(game).ecs.records().len() == old(game).ecs.records().len() + 1,
        final(game).ecs.records().drop_last() == old(game).ecs.records(),
        final(game).ecs.records().last().position == position,
        final(game).ecs.records().last().entity == e,
        final(game).ecs.records().last().ai is Some,
        final(game).ecs.records().last().combat matches Some(c) && c.team == Team::Enemy,
        final(game).ecs.records().last().staircase is None,
        final(game).ecs.records().last().name@ != "Wall"@,
        e.id == old(game).ecs.next_id(),
        final(game).ecs.next_id() >= old(game).ecs.next_id(),
{
    proof {
        reveal_strlit("Wall");
        reveal_strlit("Phase Bat");
        reveal_strlit("Pyro Snake");
        assert("Wall"@.len() == 4 && "Phase Bat"@.len() == 9 && "Pyro Snake"@.len() == 10);
    }
    let kinds = [EnemyKind::PhaseBat, EnemyKind::PyroSnake];
    let kind = choose_item(&kinds, &mut game.rng);
    match kind {
        Some(EnemyKind::PyroSnake) => crate::entities::pyro_snake::create_pyro_snake(position, game),
        _ => crate::entities::phase_bat::create_phase_bat(position, game),
    }
}

} // verus!
