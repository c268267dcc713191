//! The game as a sequence of stages: a new game, the player's turn, the
//! monsters' turn, and the end of the game.

use crate::components::{CombatComponent, PositionComponent};
use crate::entities::{ai_turn_taken, AI};
use crate::game::{combat_of, health_after, Game};
use crate::turns::{staircase_at, with_ai};
use crate::world::{find_index, in_bounds, record_ok, Entity, EntityRecord};
use vstd::prelude::*;
use vstd::relations::{sorted_by, total_ordering};

verus! {

/// One of the four item slots bound to the number keys.
#[derive(Debug, Copy, Clone, Hash, PartialEq, Eq, Structural)]
pub enum ItemSlot {
    One,
    Two,
    Three,
    Four,
}

/// What the player chose to do on its turn.
#[derive(Debug, Copy, Clone, Hash, PartialEq, Eq, Structural)]
pub enum PlayerAction {
    Idle,
    Pass,
    Interact,
    Turn(PositionComponent),
    Move(PositionComponent),
    UseItem(ItemSlot),
}

/// The keys held when input is read.
#[derive(Debug, Copy, Clone, PartialEq, Eq, Structural)]
pub struct StageKeys {
    pub shift: bool,
    pub up: bool,
    pub left: bool,
    pub down: bool,
    pub right: bool,
    pub pass: bool,
    pub interact: bool,
    pub item_one: bool,
    pub item_two: bool,
    pub item_three: bool,
    pub item_four: bool,
}

/// A direction or step whose components are each -1, 0 or 1.
pub open spec fn unit_step(d: PositionComponent) -> bool {
    -1 <= d.x <= 1 && -1 <= d.y <= 1
}

/// The action the keys choose; later keys win: the direction keys (down
/// over up, right over left; with shift a turn, otherwise a move; nothing
/// without a direction), then waiting, using, and the item slots one to
/// four.
pub open spec fn action_for_keys(k: StageKeys) -> PlayerAction {
    let dy: i32 = if k.down {
        -1i32
    } else if k.up {
        1i32
    } else {
        0i32
    };
    let dx: i32 = if k.right {
        1i32
    } else if k.left {
        -1i32
    } else {
        0i32
    };
    if k.item_four {
        PlayerAction::UseItem(ItemSlot::Four)
    } else if k.item_three {
        PlayerAction::UseItem(ItemSlot::Three)
    } else if k.item_two {
        PlayerAction::UseItem(ItemSlot::Two)
    } else if k.item_one {
        PlayerAction::UseItem(ItemSlot::One)
    } else if k.interact {
        PlayerAction::Interact
    } else if k.pass {
        PlayerAction::Pass
    } else if dx == 0 && dy == 0 {
        PlayerAction::Idle
    } else if k.shift {
        PlayerAction::Turn(PositionComponent { x: dx, y: dy })
    } else {
        PlayerAction::Move(PositionComponent { x: dx, y: dy })
    }
}

/// Some key that counts as input is held.
pub open spec fn any_key(k: StageKeys) -> bool {
    k.shift || k.up || k.left || k.down || k.right || k.pass || k.interact || k.item_one
        || k.item_two || k.item_three || k.item_four
}

/// Any action's step is a unit step.
pub open spec fn action_ok(a: PlayerAction) -> bool {
    match a {
        PlayerAction::Turn(d) => unit_step(d),
        PlayerAction::Move(d) => unit_step(d),
        _ => true,
    }
}

/// A new game, before its first floor exists.
#[derive(Debug, Copy, Clone, PartialEq, Eq, Structural)]
pub struct NewGameStage {}

/// The player's turn: the game and the action last chosen.
pub struct PlayerTurnStage {
    pub game: Game,
    pub action: PlayerAction,
}

/// The monsters' turn.
pub struct AITurnStage {
    pub game: Game,
}

/// The player has died; nothing happens any more.
pub struct GameOverStage {
    pub game: Game,
}

/// Where the game stands.
pub enum Stage {
    NewGame(NewGameStage),
    PlayerTurn(PlayerTurnStage),
    AITurn(AITurnStage),
    GameOver(GameOverStage),
}

impl Stage {
    /// Every game in the stage is well formed, and the action chosen is one
    /// the keys can give.
    pub open spec fn wf(&self) -> bool {
        match self {
            Stage::NewGame(_) => true,
            Stage::PlayerTurn(s) => s.game.wf() && action_ok(s.action),
            Stage::AITurn(s) => s.game.wf(),
            Stage::GameOver(s) => s.game.wf(),
        }
    }
}

/// `g1` is `g0` after the end of the player's turn (see `end_of_turn`),
/// and `died` tells whether the player died of its burn.
pub open spec fn turn_ended(g0: Game, g1: Game, died: bool) -> bool {
    let c0 = combat_of(g0.ecs, g0.player_entity).unwrap();
    let healed = if g0.player_turns_until_passive_healing == 1 {
        crate::game::passively_healed(c0)
    } else {
        c0
    };
    let c1 = if healed.burn_debuff.1 > 0 {
        CombatComponent {
            current_health: health_after(healed.current_health, healed.burn_debuff.0 as int),
            burn_debuff: if healed.burn_debuff.1 == 1 {
                (0, 0)
            } else {
                (healed.burn_debuff.0, (healed.burn_debuff.1 - 1) as u32)
            },
            ..healed
        }
    } else {
        healed
    };
    &&& g1.wf()
    &&& g1 == Game {
        ecs: g1.ecs,
        player_turns_until_passive_healing: if g0.player_turns_until_passive_healing == 1 {
            10
        } else {
            (g0.player_turns_until_passive_healing - 1) as u32
        },
        ..g0
    }
    &&& g1.ecs.records() == crate::game::with_combat(g0.ecs, g0.player_entity, c1)
    &&& died == (healed.burn_debuff.1 > 0 && c1.current_health == 0)
}

/// The stage after the player's turn ended in `g`: the game is over when
/// the player died, otherwise the monsters act.
pub open spec fn after_turn(g: Game, died: bool) -> Stage {
    if died {
        Stage::GameOver(GameOverStage { game: g })
    } else {
        Stage::AITurn(AITurnStage { game: g })
    }
}

/// The game with the player facing `d`, unless `d` is no direction.
pub open spec fn faced(g: Game, d: PositionComponent) -> Game {
    if d.x == 0 && d.y == 0 {
        g
    } else {
        Game { player_facing_direction: d, ..g }
    }
}

/// The tile one step from the player in direction `d`.
pub open spec fn player_target(g: Game, d: PositionComponent) -> PositionComponent {
    let p = g.ecs.get_spec(g.player_entity).unwrap().position;
    PositionComponent { x: (p.x + d.x) as i32, y: (p.y + d.y) as i32 }
}

/// `g1` is `g0` with the player moved to `t`.
pub open spec fn player_moved(g0: Game, g1: Game, t: PositionComponent) -> bool {
    &&& g1 == Game { ecs: g1.ecs, ..g0 }
    &&& g1.ecs.records() == crate::movement::moved_to(g0.ecs, g0.player_entity, t)
}

/// The player's health after resting on the stairs: a fifth of its
/// maximum (rounded to the nearest) back, up to the maximum, and no burn.
pub open spec fn stairs_rest(c: CombatComponent) -> CombatComponent {
    let healed = c.current_health + (2 * c.max_health + 5) / 10;
    CombatComponent {
        current_health: if healed > c.max_health {
            c.max_health
        } else {
            healed as u32
        },
        burn_debuff: (0, 0),
        ..c
    }
}

/// `g2` is `g0` after the player took the stairs: it rests (see
/// `stairs_rest`) and the next floor is laid out (see `Game::next_floor`).
pub open spec fn stairs_taken(g0: Game, g2: Game) -> bool {
    exists|g1: Game|
        {
            &&& #[trigger] g1.ecs.records() == crate::game::with_combat(
                g0.ecs,
                g0.player_entity,
                stairs_rest(combat_of(g0.ecs, g0.player_entity).unwrap()),
            )
            &&& g1 == Game { ecs: g1.ecs, ..g0 }
            &&& g2.wf()
            &&& g2.player_entity == g1.player_entity
            &&& g2.player_turns_until_passive_healing == g1.player_turns_until_passive_healing
            &&& g2.player_facing_direction == g1.player_facing_direction
            &&& g2.actor_queue == g1.actor_queue
            &&& g2.player_inventory == g1.player_inventory
            &&& g2.floor_number == if g1.floor_number < u32::MAX {
                g1.floor_number + 1
            } else {
                g1.floor_number as int
            }
            &&& g2.ecs.get_spec(g2.player_entity) == Some(
                EntityRecord {
                    position: PositionComponent { x: 0, y: 0 },
                    ..g1.ecs.get_spec(g1.player_entity).unwrap()
                },
            )
            &&& crate::game::floor_laid_out(g2)
        }
}

impl PlayerTurnStage {
    /// Reads the keys held: when any is held the action becomes
    /// `action_for_keys` (see there), otherwise nothing is chosen. Returns
    /// whether any key was held (the time of the last input is then reset).
    pub fn input(&mut self, keys: StageKeys) -> (pressed: bool)
        ensures
            final(self).action == action_for_keys(keys),
            action_ok(final(self).action),
            final(self).game == old(self).game,
            pressed == any_key(keys),
    {
        let mut dx: i32 = 0;
        let mut dy: i32 = 0;
        let mut moving = true;
        let mut pressed = false;
        if keys.shift {
            pressed = true;
            moving = false;
        }
        if keys.up {
            pressed = true;
            dy = 1;
        }
        if keys.left {
            pressed = true;
            dx = -1;
        }
        if keys.down {
            pressed = true;
            dy = -1;
        }
        if keys.right {
            pressed = true;
            dx = 1;
        }
        self.action = if dx == 0 && dy == 0 {
            PlayerAction::Idle
        } else if moving {
            PlayerAction::Move(PositionComponent { x: dx, y: dy })
        } else {
            PlayerAction::Turn(PositionComponent { x: dx, y: dy })
        };
        if keys.pass {
            pressed = true;
            self.action = PlayerAction::Pass;
        }
        if keys.interact {
            pressed = true;
            self.action = PlayerAction::Interact;
        }
        if keys.item_one {
            pressed = true;
            self.action = PlayerAction::UseItem(ItemSlot::One);
        }
        if keys.item_two {
            pressed = true;
            self.action = PlayerAction::UseItem(ItemSlot::Two);
        }
        if keys.item_three {
            pressed = true;
            self.action = PlayerAction::UseItem(ItemSlot::Three);
        }
        if keys.item_four {
            pressed = true;
            self.action = PlayerAction::UseItem(ItemSlot::Four);
        }
        pressed
    }

    /// The end of the player's turn: the passive-healing countdown (two
    /// health every tenth turn, up to the maximum), then a burn's damage and
    /// one turn off it (a burn with no turns left is gone). Returns whether
    /// the player died of the burn.
    pub fn end_of_turn(&mut self) -> (died: bool)
        requires
            old(self).game.wf(),
        ensures
            final(self).action == old(self).action,
            turn_ended(old(self).game, final(self).game, died),
    {
        let mut c = self.game.player_combat();
        self.game.player_turns_until_passive_healing = self.game.player_turns_until_passive_healing - 1;
        if self.game.player_turns_until_passive_healing == 0 {
            self.game.player_turns_until_passive_healing = 10;
            c.current_health = if c.current_health as u64 + 2 > c.max_health as u64 {
                c.max_health
            } else {
                c.current_health + 2
            };
        }
        let mut died = false;
        if c.burn_debuff.1 > 0 {
            c.current_health = if c.burn_debuff.0 >= c.current_health {
                0
            } else {
                c.current_health - c.burn_debuff.0
            };
            c.burn_debuff.1 = c.burn_debuff.1 - 1;
            if c.burn_debuff.1 == 0 {
                c.burn_debuff = (0, 0);
            }
            died = c.current_health == 0;
        }
        proof {
            crate::world::lemma_find_index(self.game.ecs.records(), self.game.player_entity);
        }
        let player = self.game.player_entity;
        self.game.set_combat(player, c);
        died
    }

    /// Carries out the chosen action. Waiting ends the turn. Using what the
    /// player faces, when it faces a staircase: it recovers a fifth of its
    /// maximum health, loses its burn, the next floor is laid out, and its
    /// turn ends, with the player to act again. Turning changes where it
    /// faces. Moving turns it too and, when no entity stands on the tile
    /// ahead, moves it there and ends its turn. Item slots do nothing. A turn
    /// that ends with the player dead ends the game; otherwise the monsters
    /// act next. When the turn does not end, the action is cleared.
    pub fn update(self) -> (next: Stage)
        requires
            self.game.wf(),
            action_ok(self.action),
        ensures
            next.wf(),
            match self.action {
                PlayerAction::Idle => next == Stage::PlayerTurn(
                    PlayerTurnStage { game: self.game, action: PlayerAction::Idle },
                ),
                PlayerAction::UseItem(_) => next == Stage::PlayerTurn(
                    PlayerTurnStage { game: self.game, action: PlayerAction::Idle },
                ),
                PlayerAction::Turn(d) => next == Stage::PlayerTurn(
                    PlayerTurnStage { game: faced(self.game, d), action: PlayerAction::Idle },
                ),
                PlayerAction::Pass => exists|g: Game, died: bool|
                    #[trigger] turn_ended(self.game, g, died) && next == after_turn(g, died),
                PlayerAction::Move(d) => {
                    let g1 = faced(self.game, d);
                    let t = player_target(self.game, d);
                    if in_bounds(t) && !self.game.ecs.occupied(t) {
                        exists|g2: Game, g3: Game, died: bool|
                            #[trigger] player_moved(g1, g2, t) && #[trigger] turn_ended(g2, g3, died) && next
                                == after_turn(g3, died)
                    } else {
                        next == Stage::PlayerTurn(PlayerTurnStage { game: g1, action: PlayerAction::Idle })
                    }
                },
                PlayerAction::Interact => {
                    let t = player_target(self.game, self.game.player_facing_direction);
                    if staircase_at(self.game.ecs, t) {
                        exists|g2: Game, g3: Game, died: bool|
                            #[trigger] stairs_taken(self.game, g2) && #[trigger] turn_ended(g2, g3, died) && next
                                == if died {
                                Stage::GameOver(GameOverStage { game: g3 })
                            } else {
                                Stage::PlayerTurn(PlayerTurnStage { game: g3, action: PlayerAction::Idle })
                            }
                    } else {
                        next == Stage::PlayerTurn(PlayerTurnStage { game: self.game, action: PlayerAction::Idle })
                    }
                },
            },
    {
        let mut stage = self;
        match stage.action {
            PlayerAction::Idle => {},
            PlayerAction::Pass => {
                if stage.end_of_turn() {
                    return Stage::GameOver(GameOverStage { game: stage.game });
                }
                return Stage::AITurn(AITurnStage { game: stage.game });
            },
            PlayerAction::Interact => {
                let position = stage.game.player_position();
                let facing = stage.game.player_facing_direction;
                let target = PositionComponent { x: position.x + facing.x, y: position.y + facing.y };
                if stage.game.staircase_on(target) {
                    let mut c = stage.game.player_combat();
                    let healed: u64 = c.current_health as u64 + (2 * (c.max_health as u64) + 5) / 10;
                    c.current_health = if healed > c.max_health as u64 {
                        c.max_health
                    } else {
                        healed as u32
                    };
                    c.burn_debuff = (0, 0);
                    let player = stage.game.player_entity;
                    proof {
                        crate::world::lemma_find_index(stage.game.ecs.records(), player);
                    }
                    let ghost g0 = stage.game;
                    stage.game.set_combat(player, c);
                    let ghost g1 = stage.game;
                    stage.game.next_floor();
                    let ghost g2 = stage.game;
                    proof {
                        assert(c == stairs_rest(combat_of(g0.ecs, g0.player_entity).unwrap()));
                        assert(g1.ecs.records() == crate::game::with_combat(
                            g0.ecs,
                            g0.player_entity,
                            stairs_rest(combat_of(g0.ecs, g0.player_entity).unwrap()),
                        ));
                        assert(stairs_taken(g0, g2));
                    }
                    let died = stage.end_of_turn();
                    assert(turn_ended(g2, stage.game, died));
                    if died {
                        return Stage::GameOver(GameOverStage { game: stage.game });
                    }
                    return Stage::PlayerTurn(
                        PlayerTurnStage { game: stage.game, action: PlayerAction::Idle },
                    );
                }
            },
            PlayerAction::Turn(direction) => {
                if !(direction.x == 0 && direction.y == 0) {
                    stage.game.player_facing_direction = direction;
                }
            },
            PlayerAction::Move(direction) => {
                if !(direction.x == 0 && direction.y == 0) {
                    stage.game.player_facing_direction = direction;
                }
                let position = stage.game.player_position();
                let target = PositionComponent { x: position.x + direction.x, y: position.y + direction.y };
                if crate::world::in_bounds_position(target) && !stage.game.ecs.is_occupied(target) {
                    let ghost g1 = stage.game;
                    stage.game.move_player(target);
                    let ghost g2 = stage.game;
                    assert(player_moved(g1, g2, target));
                    let died = stage.end_of_turn();
                    assert(turn_ended(g2, stage.game, died));
                    if died {
                        return Stage::GameOver(GameOverStage { game: stage.game });
                    }
                    return Stage::AITurn(AITurnStage { game: stage.game });
                }
            },
            PlayerAction::UseItem(_) => {},
        }
        stage.action = PlayerAction::Idle;
        Stage::PlayerTurn(stage)
    }
}

impl NewGameStage {
    /// Starts a game (see `Game::new`) on the player's turn with nothing
    /// chosen.
    pub fn update(self, dungeon_generation_seed: u64, rng_seed: u64) -> (next: Stage)
        ensures
            next.wf(),
            next matches Stage::PlayerTurn(s) && s.action is Idle && s.game.floor_number == 1,
    {
        Stage::PlayerTurn(
            PlayerTurnStage { game: Game::new(dungeon_generation_seed, rng_seed), action: PlayerAction::Idle },
        )
    }
}

impl GameOverStage {
    /// The game stays over.
    pub fn update(self) -> (next: Stage)
        requires
            self.game.wf(),
        ensures
            next.wf(),
            next is GameOver,
    {
        Stage::GameOver(self)
    }
}

/// The order monsters act in: by king-move distance to the player, nearest
/// first, and in table order at equal distance.
pub open spec fn actor_le(a: (u32, usize, Entity), b: (u32, usize, Entity)) -> bool {
    a.0 < b.0 || (a.0 == b.0 && a.1 <= b.1)
}

/// `actor_le` as a relation.
pub open spec fn actor_order() -> spec_fn((u32, usize, Entity), (u32, usize, Entity)) -> bool {
    |a: (u32, usize, Entity), b: (u32, usize, Entity)| actor_le(a, b)
}

proof fn lemma_insert_sorted(s: Seq<(u32, usize, Entity)>, p: int, x: (u32, usize, Entity))
    requires
        sorted_by(s, actor_order()),
        0 <= p <= s.len(),
        forall|i: int| 0 <= i < p ==> actor_le(#[trigger] s[i], x),
        p < s.len() ==> !actor_le(s[p], x),
    ensures
        sorted_by(s.insert(p, x), actor_order()),
{
    let r = s.insert(p, x);
    assert forall|i: int, j: int| 0 <= i < j < r.len() implies #[trigger] actor_order()(r[i], r[j]) by {
        if j < p {
            assert(actor_order()(s[i], s[j]));
        } else if j == p {
            assert(actor_le(s[i], x));
        } else if i < p {
            assert(actor_le(s[i], x));
            if p < j - 1 {
                assert(actor_order()(s[p], s[j - 1]));
            }
        } else if i == p {
            if p < j - 1 {
                assert(actor_order()(s[p], s[j - 1]));
            }
        } else {
            assert(actor_order()(s[i - 1], s[j - 1]));
        }
    }
}

/// The actors sorted by `actor_le`.
pub(crate) fn sort_actors(keyed: &Vec<(u32, usize, Entity)>) -> (r: Vec<(u32, usize, Entity)>)
    ensures
        r@.to_multiset() == keyed@.to_multiset(),
        sorted_by(r@, actor_order()),
{
    broadcast use vstd::seq_lib::group_to_multiset_ensures;
    broadcast use vstd::seq_lib::to_multiset_insert;

    let mut r: Vec<(u32, usize, Entity)> = Vec::new();
    let mut k: usize = 0;
    while k < keyed.len()
        invariant
            k <= keyed@.len(),
            r@.to_multiset() == keyed@.subrange(0, k as int).to_multiset(),
            sorted_by(r@, actor_order()),
        decreases keyed@.len() - k,
    {
        let x = keyed[k];
        let mut p: usize = 0;
        while p < r.len() && (r[p].0 < x.0 || (r[p].0 == x.0 && r[p].1 <= x.1))
            invariant
                p <= r@.len(),
                forall|i: int| 0 <= i < p ==> actor_le(#[trigger] r@[i], x),
            decreases r@.len() - p,
        {
            p = p + 1;
        }
        let ghost before = r@;
        r.insert(p, x);
        proof {
            assert(keyed@.subrange(0, k + 1) =~= keyed@.subrange(0, k as int).push(x));
            assert(r@ == before.insert(p as int, x));
            vstd::seq_lib::to_multiset_insert(before, p as int, x);
            vstd::seq_lib::to_multiset_build(keyed@.subrange(0, k as int), x);
            lemma_insert_sorted(before, p as int, x);
        }
        k = k + 1;
    }
    assert(keyed@.subrange(0, keyed@.len() as int) =~= keyed@);
    r
}

/// The king-move distance between two positions of the bounded plane.
fn king_distance(a: PositionComponent, b: PositionComponent) -> (d: u32)
    requires
        in_bounds(a),
        in_bounds(b),
    ensures
        d == crate::components::chebyshev(a, b),
{
    let dx: i64 = if a.x < b.x {
        b.x as i64 - a.x as i64
    } else {
        a.x as i64 - b.x as i64
    };
    let dy: i64 = if a.y < b.y {
        b.y as i64 - a.y as i64
    } else {
        a.y as i64 - b.y as i64
    };
    if dx < dy {
        dy as u32
    } else {
        dx as u32
    }
}

/// Whether `order` lists the monsters of `g` (records with a behaviour)
/// keyed by their king-move distance to the player and their index,
/// nearest first and in table order at equal distance, every monster
/// listed.
pub open spec fn actors_listed(g: Game, order: Seq<(u32, usize, Entity)>) -> bool {
    &&& sorted_by(order, actor_order())
    &&& forall|i: int|
        0 <= i < order.len() ==> {
            let (d, k, e) = #[trigger] order[i];
            &&& 0 <= k < g.ecs.records().len()
            &&& g.ecs.records()[k as int].ai is Some
            &&& g.ecs.records()[k as int].entity == e
            &&& d == crate::components::chebyshev(
                g.ecs.records()[k as int].position,
                g.ecs.get_spec(g.player_entity).unwrap().position,
            )
        }
    &&& forall|j: int|
        0 <= j < g.ecs.records().len() && (#[trigger] g.ecs.records()[j]).ai is Some ==> exists|k: int|
            0 <= k < order.len() && order[k].1 == j
}

impl AITurnStage {
    /// The monsters, nearest to the player first (see `actors_listed`).
    pub fn ordered_actors(&self) -> (r: Vec<(u32, usize, Entity)>)
        requires
            self.game.wf(),
        ensures
            actors_listed(self.game, r@),
    {
        let player_position = self.game.player_position();
        let n = self.game.ecs.len();
        let mut keyed: Vec<(u32, usize, Entity)> = Vec::new();
        let mut i: usize = 0;
        while i < n
            invariant
                n == self.game.ecs.records().len(),
                i <= n,
                self.game.wf(),
                player_position == self.game.ecs.get_spec(self.game.player_entity).unwrap().position,
                in_bounds(player_position),
                forall|j: int|
                    0 <= j < keyed@.len() ==> {
                        let (d, k, e) = #[trigger] keyed@[j];
                        &&& 0 <= k < n
                        &&& self.game.ecs.records()[k as int].ai is Some
                        &&& self.game.ecs.records()[k as int].entity == e
                        &&& d == crate::components::chebyshev(
                            self.game.ecs.records()[k as int].position,
                            player_position,
                        )
                    },
                forall|j: int|
                    0 <= j < i && (#[trigger] self.game.ecs.records()[j]).ai is Some ==> exists|k: int|
                        0 <= k < keyed@.len() && keyed@[k].1 == j,
            decreases n - i,
        {
            let r = self.game.ecs.record_at(i);
            let ghost before = keyed@;
            assert(record_ok(self.game.ecs.records()[i as int]));
            if r.ai.is_some() {
                keyed.push((king_distance(r.position, player_position), i, r.entity));
                assert(keyed@[keyed@.len() - 1].1 == i);
            }
            proof {
                assert forall|j: int|
                    0 <= j < i + 1 && (#[trigger] self.game.ecs.records()[j]).ai is Some implies exists|k: int|
                        0 <= k < keyed@.len() && keyed@[k].1 == j by {
                    if j < i {
                        let k = choose|k: int| 0 <= k < before.len() && before[k].1 == j;
                        assert(keyed@[k] == before[k]);
                    } else {
                        assert(keyed@[keyed@.len() - 1].1 == j);
                    }
                }
            }
            i = i + 1;
        }
        let sorted = sort_actors(&keyed);
        proof {
            broadcast use vstd::seq_lib::group_to_multiset_ensures;

            assert forall|i: int| 0 <= i < sorted@.len() implies keyed@.contains(#[trigger] sorted@[i]) by {
                assert(sorted@.to_multiset().count(sorted@[i]) > 0);
            }
            assert forall|j: int|
                0 <= j < n && (#[trigger] self.game.ecs.records()[j]).ai is Some implies exists|k: int|
                    0 <= k < sorted@.len() && sorted@[k].1 == j by {
                let k = choose|k: int| 0 <= k < keyed@.len() && keyed@[k].1 == j;
                assert(keyed@.to_multiset().count(keyed@[k]) > 0);
                assert(sorted@.contains(keyed@[k]));
            }
        }
        sorted
    }

    /// The monsters' turn. Each monster, nearest to the player first (see
    /// `actors_listed`), that is still there with a behaviour and can fight
    /// runs its behaviour and keeps its new state (see `monster_turn`); as
    /// soon as the player is dead after one of them, the game is over.
    /// Then every entity but the player that burns loses the burn's damage
    /// and a turn of it; burns with no turns left go, and entities at zero
    /// health are removed (see `burns_done`). The player's turn follows.
    pub fn update(self) -> (next: Stage)
        requires
            self.game.wf(),
        ensures
            next.wf(),
            next is PlayerTurn || next is GameOver,
            next matches Stage::PlayerTurn(s) ==> s.action is Idle && s.game.player_entity == self.game.player_entity,
            next matches Stage::GameOver(s) ==> s.game.player_entity == self.game.player_entity && combat_of(
                s.game.ecs,
                s.game.player_entity,
            ).unwrap().current_health == 0,
            exists|order: Seq<(u32, usize, Entity)>, games: Seq<Game>|
                #[trigger] monsters_turned(self.game, order, games) && actors_listed(self.game, order) && match next {
                    Stage::GameOver(s) => {
                        &&& games.len() >= 2
                        &&& stopped(games, order, games.len() - 2)
                        &&& s.game == games.last()
                    },
                    Stage::PlayerTurn(s) => {
                        &&& games.len() == order.len() + 1
                        &&& games.len() >= 2 ==> !stopped(games, order, games.len() - 2)
                        &&& burns_done(games.last(), s.game)
                    },
                    _ => false,
                },
    {
        let actors = self.ordered_actors();
        let ghost g0 = self.game;
        let mut game = self.game;
        let ghost mut games: Seq<Game> = seq![game];
        let mut k: usize = 0;
        while k < actors.len()
            invariant
                game.wf(),
                game.player_entity == self.game.player_entity,
                k <= actors@.len(),
                games.len() == k + 1,
                games.last() == game,
                monsters_turned(g0, actors@, games),
                actors_listed(g0, actors@),
                g0 == self.game,
                k >= 1 ==> !stopped(games, actors@, k - 1),
            decreases actors@.len() - k,
        {
            let e = actors[k].2;
            let ghost before = game;
            let ran = run_monster(&mut game, e);
            proof {
                let old_games = games;
                games = games.push(game);
                assert(games[k as int] == before);
                assert forall|j: int| 0 <= j < games.len() - 1 implies #[trigger] monster_turn(
                    games[j],
                    games[j + 1],
                    actors@[j].2,
                ) by {
                    if j < k {
                        assert(games[j] == old_games[j] && games[j + 1] == old_games[j + 1]);
                    }
                }
                assert forall|j: int| 0 <= j < games.len() - 2 implies !#[trigger] stopped(games, actors@, j) by {
                    assert(games[j] == old_games[j] && games[j + 1] == old_games[j + 1]);
                    assert(!stopped(old_games, actors@, j));
                }
            }
            if ran {
                let c = game.player_combat();
                if c.current_health == 0 {
                    assert(stopped(games, actors@, k as int));
                    assert(monsters_turned(g0, actors@, games));
                    return Stage::GameOver(GameOverStage { game });
                }
            }
            assert(!stopped(games, actors@, k as int));
            k = k + 1;
        }
        burn_monsters(&mut game);
        assert(burns_done(games.last(), game));
        assert(monsters_turned(g0, actors@, games));
        Stage::PlayerTurn(PlayerTurnStage { game, action: PlayerAction::Idle })
    }
}

/// Whether `e` takes its turn in `g`: it is on the floor with a behaviour
/// and can fight.
pub open spec fn monster_can_act(g: Game, e: Entity) -> bool {
    g.ecs.get_spec(e) matches Some(r) && r.ai is Some && r.combat is Some
}

/// A monster's turn from `g0` through `acted` (after its behaviour ran,
/// leaving it the state `ai1`; see `entities::ai_turn_taken`) to `g1`: it
/// keeps that state while it is still there with a behaviour.
pub open spec fn monster_turn_via(g0: Game, acted: Game, ai1: AI, g1: Game, e: Entity) -> bool {
    &&& ai_turn_taken(g0.ecs.get_spec(e).unwrap().ai.unwrap().ai, g0, ai1, acted, e)
    &&& match acted.ecs.get_spec(e) {
        Some(cur) => if cur.ai is Some {
            &&& g1 == (Game { ecs: g1.ecs, ..acted })
            &&& g1.ecs.records() == with_ai(acted.ecs, e, ai1)
        } else {
            g1 == acted
        },
        None => g1 == acted,
    }
}

/// `e`'s turn among the monsters', from `g0` to `g1`: when it takes its
/// turn (see `monster_can_act`), as `monster_turn_via` says; otherwise
/// nothing happens.
pub open spec fn monster_turn(g0: Game, g1: Game, e: Entity) -> bool {
    if monster_can_act(g0, e) {
        exists|acted: Game, ai1: AI| #[trigger] monster_turn_via(g0, acted, ai1, g1, e)
    } else {
        g1 == g0
    }
}

/// Whether the player is dead in `g`.
pub open spec fn player_dead(g: Game) -> bool {
    combat_of(g.ecs, g.player_entity).unwrap().current_health == 0
}

/// Whether `e` burns in `g`: someone other than the player whose burn has
/// turns left.
pub open spec fn burning(g: Game, e: Entity) -> bool {
    &&& e != g.player_entity
    &&& combat_of(g.ecs, e) matches Some(c) && c.burn_debuff.1 > 0
}

/// A combatant after one turn of its burn: the burn's damage (never below
/// zero health) and a turn less, the burn gone with its last turn.
pub open spec fn burned_once(c: CombatComponent) -> CombatComponent {
    let turns = (c.burn_debuff.1 - 1) as u32;
    CombatComponent {
        current_health: health_after(c.current_health, c.burn_debuff.0 as int),
        burn_debuff: if turns == 0 {
            (0, 0)
        } else {
            (c.burn_debuff.0, turns)
        },
        ..c
    }
}

/// What the burns did, from `g0` to `g1`: everyone who burns (see
/// `burning`) is burned once (see `burned_once`) and removed at zero
/// health; everyone else, and all but the table, stays as it was.
pub open spec fn burns_done(g0: Game, g1: Game) -> bool {
    &&& g1 == (Game { ecs: g1.ecs, ..g0 })
    &&& forall|e: Entity| !burning(g0, e) ==> #[trigger] g1.ecs.get_spec(e) == g0.ecs.get_spec(e)
    &&& forall|e: Entity|
        burning(g0, e) ==> {
            let c1 = burned_once(combat_of(g0.ecs, e).unwrap());
            if c1.current_health == 0 {
                #[trigger] g1.ecs.get_spec(e) is None
            } else {
                g1.ecs.get_spec(e) == Some(EntityRecord { combat: Some(c1), ..g0.ecs.get_spec(e).unwrap() })
            }
        }
}

/// Whether the monsters' turn stops after the `j`-th monster of `order`:
/// it acted (see `monster_can_act`), and the player is then dead.
pub open spec fn stopped(games: Seq<Game>, order: Seq<(u32, usize, Entity)>, j: int) -> bool {
    monster_can_act(games[j], order[j].2) && player_dead(games[j + 1])
}

/// The monsters of `order` take their turns in order from `g0` through
/// `games` (see `monster_turn`), no earlier one stopping the turn (see
/// `stopped`).
pub open spec fn monsters_turned(g0: Game, order: Seq<(u32, usize, Entity)>, games: Seq<Game>) -> bool {
    &&& 1 <= games.len() <= order.len() + 1
    &&& games[0] == g0
    &&& forall|j: int| 0 <= j < games.len() - 1 ==> #[trigger] monster_turn(games[j], games[j + 1], order[j].2)
    &&& forall|j: int| 0 <= j < games.len() - 2 ==> !#[trigger] stopped(games, order, j)
}

/// Runs the behaviour of `e` when it takes its turn (see `monster_turn`).
/// Returns whether it ran.
fn run_monster(game: &mut Game, e: Entity) -> (ran: bool)
    requires
        old(game).wf(),
    ensures
        final(game).wf(),
        final(game).player_entity == old(game).player_entity,
        ran == monster_can_act(*old(game), e),
        monster_turn(*old(game), *final(game), e),
{
    let ghost g0 = *game;
    let rec = match game.ecs.get(e) {
        Some(r) => r,
        None => {
            return false;
        },
    };
    let mut ai = match rec.ai {
        Some(a) => a.ai,
        None => {
            return false;
        },
    };
    if !game.has_combat(e) {
        return false;
    }
    ai.run(e, game);
    let ghost acted = *game;
    match game.ecs.index_of(e) {
        Some(idx) => {
            proof {
                crate::world::lemma_find_index(game.ecs.records(), e);
            }
            let current = game.ecs.record_at(idx);
            assert(record_ok(game.ecs.records()[idx as int]));
            if current.ai.is_some() {
                let ghost before = game.ecs;
                game.ecs.set_record(
                    idx,
                    EntityRecord { ai: Some(crate::entities::AIComponent { ai }), ..current },
                );
                proof {
                    crate::world::lemma_find_index(before.records(), game.player_entity);
                    crate::world::lemma_find_index(game.ecs.records(), game.player_entity);
                }
            }
        },
        None => {},
    }
    assert(monster_turn_via(g0, acted, ai, *game, e));
    true
}

/// The entities that burn (see `burning`), each once, in table order.
fn burning_entities(game: &Game) -> (r: Vec<Entity>)
    requires
        game.wf(),
    ensures
        forall|e: Entity| r@.contains(e) <==> burning(*game, e),
        r@.no_duplicates(),
{
    let n = game.ecs.len();
    let mut r: Vec<Entity> = Vec::new();
    let mut i: usize = 0;
    while i < n
        invariant
            n == game.ecs.records().len(),
            i <= n,
            game.wf(),
            r@.no_duplicates(),
            forall|e: Entity|
                #[trigger] r@.contains(e) <==> (burning(*game, e) && exists|j: int|
                    0 <= j < i && find_index(game.ecs.records(), e) == Some(j)),
        decreases n - i,
    {
        let rec = game.ecs.record_at(i);
        let is_first = match game.ecs.index_of(rec.entity) {
            Some(fi) => fi == i,
            None => false,
        };
        let ghost before = r@;
        proof {
            crate::world::lemma_find_index(game.ecs.records(), rec.entity);
        }
        if is_first && rec.entity != game.player_entity {
            match rec.combat {
                Some(c) => {
                    if c.burn_debuff.1 > 0 {
                        proof {
                            assert forall|x: Entity| before.contains(x) implies x != rec.entity by {
                                let j = choose|j: int| 0 <= j < i && find_index(game.ecs.records(), x) == Some(j);
                            }
                        }
                        r.push(rec.entity);
                        proof {
                            assert(!before.contains(rec.entity));
                            assert forall|a: int, b: int| 0 <= a < b < r@.len() implies r@[a] != r@[b] by {
                                if b == r@.len() - 1 {
                                    assert(before[a] == r@[a]);
                                    assert(before.contains(r@[a]));
                                }
                            }
                        }
                    }
                },
                None => {},
            }
        }
        proof {
            assert forall|e: Entity|
                #[trigger] r@.contains(e) <==> (burning(*game, e) && exists|j: int|
                    0 <= j < i + 1 && find_index(game.ecs.records(), e) == Some(j)) by {
                crate::world::lemma_find_index(game.ecs.records(), e);
                if r@.contains(e) && !before.contains(e) {
                    assert(e == rec.entity);
                }
                if before.contains(e) {
                    let a = choose|a: int| 0 <= a < before.len() && before[a] == e;
                    assert(r@[a] == e);
                }
                if burning(*game, e) && find_index(game.ecs.records(), e) == Some(i as int) {
                    assert(e == rec.entity);
                    assert(r@[r@.len() - 1] == e);
                }
            }
        }
        i = i + 1;
    }
    proof {
        assert forall|e: Entity| burning(*game, e) implies r@.contains(e) by {
            crate::world::lemma_find_index(game.ecs.records(), e);
        }
    }
    r
}

/// Burns every entity that burns once, then removes spent burns and those
/// at zero health (see `burns_done`).
fn burn_monsters(game: &mut Game)
    requires
        old(game).wf(),
    ensures
        final(game).wf(),
        burns_done(*old(game), *final(game)),
{
    let ghost g0 = *game;
    let burning_list = burning_entities(game);
    let mut k: usize = 0;
    while k < burning_list.len()
        invariant
            game.wf(),
            g0.wf(),
            *game == (Game { ecs: game.ecs, ..g0 }),
            k <= burning_list@.len(),
            burning_list@.no_duplicates(),
            forall|e: Entity| burning_list@.contains(e) <==> burning(g0, e),
            forall|e: Entity| !burning(g0, e) ==> #[trigger] game.ecs.get_spec(e) == g0.ecs.get_spec(e),
            forall|j: int|
                0 <= j < k ==> #[trigger] game.ecs.get_spec(burning_list@[j]) == Some(
                    EntityRecord {
                        combat: Some(
                            CombatComponent {
                                current_health: burned_once(combat_of(g0.ecs, burning_list@[j]).unwrap()).current_health,
                                burn_debuff: (
                                    combat_of(g0.ecs, burning_list@[j]).unwrap().burn_debuff.0,
                                    (combat_of(g0.ecs, burning_list@[j]).unwrap().burn_debuff.1 - 1) as u32,
                                ),
                                ..combat_of(g0.ecs, burning_list@[j]).unwrap()
                            },
                        ),
                        ..g0.ecs.get_spec(burning_list@[j]).unwrap()
                    },
                ),
            forall|j: int| k <= j < burning_list@.len() ==> #[trigger] game.ecs.get_spec(burning_list@[j]) == g0.ecs.get_spec(burning_list@[j]),
        decreases burning_list@.len() - k,
    {
        let e = burning_list[k];
        proof {
            assert(burning_list@[k as int] == e);
            assert(burning_list@.contains(e));
            assert(burning(g0, e));
            assert(game.ecs.get_spec(e) == g0.ecs.get_spec(e));
        }
        let r = game.ecs.get(e).unwrap();
        let c = r.combat.unwrap();
        proof {
            crate::world::lemma_find_index(game.ecs.records(), e);
            let j = find_index(game.ecs.records(), e).unwrap();
            assert(record_ok(game.ecs.records()[j]));
        }
        let health = if c.burn_debuff.0 >= c.current_health {
            0
        } else {
            c.current_health - c.burn_debuff.0
        };
        let c1 = CombatComponent { current_health: health, burn_debuff: (c.burn_debuff.0, c.burn_debuff.1 - 1), ..c };
        let ghost before = game.ecs;
        game.set_combat(e, c1);
        proof {
            crate::game::lemma_with_combat(before, e, c1);
            crate::world::lemma_find_index(before.records(), e);
            assert(game.ecs.get_spec(e) == Some(EntityRecord { combat: Some(c1), ..g0.ecs.get_spec(e).unwrap() }));
            assert forall|j: int| 0 <= j < burning_list@.len() && j != k implies #[trigger] burning_list@[j] != e by {
                assert(burning_list@[j] != burning_list@[k as int]);
            }
        }
        k = k + 1;
    }
    let ghost mid = *game;
    let mut k: usize = 0;
    while k < burning_list.len()
        invariant
            game.wf(),
            g0.wf(),
            *game == (Game { ecs: game.ecs, ..g0 }),
            k <= burning_list@.len(),
            burning_list@.no_duplicates(),
            forall|e: Entity| burning_list@.contains(e) <==> burning(g0, e),
            forall|e: Entity| !burning(g0, e) ==> #[trigger] game.ecs.get_spec(e) == g0.ecs.get_spec(e),
            forall|j: int|
                #![trigger burning_list@[j]]
                0 <= j < k ==> {
                    let c1 = burned_once(combat_of(g0.ecs, burning_list@[j]).unwrap());
                    if c1.current_health == 0 {
                        game.ecs.get_spec(burning_list@[j]) is None
                    } else {
                        game.ecs.get_spec(burning_list@[j]) == Some(
                            EntityRecord { combat: Some(c1), ..g0.ecs.get_spec(burning_list@[j]).unwrap() },
                        )
                    }
                },
            forall|j: int| k <= j < burning_list@.len() ==> #[trigger] game.ecs.get_spec(burning_list@[j]) == mid.ecs.get_spec(burning_list@[j]),
            forall|j: int|
                0 <= j < burning_list@.len() ==> #[trigger] mid.ecs.get_spec(burning_list@[j]) == Some(
                    EntityRecord {
                        combat: Some(
                            CombatComponent {
                                current_health: burned_once(combat_of(g0.ecs, burning_list@[j]).unwrap()).current_health,
                                burn_debuff: (
                                    combat_of(g0.ecs, burning_list@[j]).unwrap().burn_debuff.0,
                                    (combat_of(g0.ecs, burning_list@[j]).unwrap().burn_debuff.1 - 1) as u32,
                                ),
                                ..combat_of(g0.ecs, burning_list@[j]).unwrap()
                            },
                        ),
                        ..g0.ecs.get_spec(burning_list@[j]).unwrap()
                    },
                ),
        decreases burning_list@.len() - k,
    {
        let e = burning_list[k];
        proof {
            assert(burning_list@[k as int] == e);
            assert(burning_list@.contains(e));
            assert(burning(g0, e));
            assert(game.ecs.get_spec(e) == mid.ecs.get_spec(e));
        }
        let r = game.ecs.get(e).unwrap();
        let c = r.combat.unwrap();
        proof {
            crate::world::lemma_find_index(game.ecs.records(), e);
            let j = find_index(game.ecs.records(), e).unwrap();
            assert(record_ok(game.ecs.records()[j]));
            assert forall|j: int| 0 <= j < burning_list@.len() && j != k implies #[trigger] burning_list@[j] != e by {
                assert(burning_list@[j] != burning_list@[k as int]);
            }
        }
        let ghost c0 = combat_of(g0.ecs, e).unwrap();
        if c.burn_debuff.1 == 0 {
            let ghost before = game.ecs;
            game.set_combat(e, CombatComponent { burn_debuff: (0, 0), ..c });
            proof {
                crate::game::lemma_with_combat(before, e, CombatComponent { burn_debuff: (0, 0), ..c });
                crate::world::lemma_find_index(before.records(), e);
            }
        }
        assert(game.ecs.get_spec(e) == Some(EntityRecord { combat: Some(burned_once(c0)), ..g0.ecs.get_spec(e).unwrap() }));
        if c.current_health == 0 {
            let ghost before = game.ecs;
            game.ecs.despawn(e);
            proof {
                crate::world::lemma_find_index(before.records(), game.player_entity);
            }
        }
        k = k + 1;
    }
    proof {
        assert forall|e: Entity| burning(g0, e) implies {
            let c1 = burned_once(combat_of(g0.ecs, e).unwrap());
            if c1.current_health == 0 {
                #[trigger] game.ecs.get_spec(e) is None
            } else {
                game.ecs.get_spec(e) == Some(EntityRecord { combat: Some(c1), ..g0.ecs.get_spec(e).unwrap() })
            }
        } by {
            assert(burning_list@.contains(e));
            let j = choose|j: int| 0 <= j < burning_list@.len() && burning_list@[j] == e;
        }
    }
}

} // verus!
