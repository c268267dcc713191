//! The player's turn under the item-and-crystal rules: waiting, picking up
//! items and taking stairs, turning, moving, and using items; a turn that
//! ends counts, heals now and then, and hands over to the monsters.

use crate::data::{Attackable, Direction, GameState, ItemResult, ItemSlot, MessageColor, MessageDisplayLength, Name, Player, Position};
use crate::items::{item_use_done, use_item};
use crate::level::{
    floor_laid_out, held, index_of_spec, is_index_of, lemma_index_unique, lemma_player_index, near, player_index,
    record_of, step_from, step_position, tile_free, try_move, Level, LevelRecord,
};
use crate::systems::GenerateDungeonSystem;
use crate::world::Entity;
use vstd::prelude::*;

verus! {

broadcast use vstd::string::group_string_axioms;

/// What the player chose to do.
#[derive(Debug, Hash, PartialEq, Eq, Copy, Clone, Structural)]
pub enum PlayerAction {
    Idle,
    Pass,
    Interact,
    Turn(Direction),
    Move(Direction),
    UseItem(ItemSlot),
}

/// Whether the player's action ended its turn.
#[derive(Debug, Hash, PartialEq, Eq, Copy, Clone, Structural)]
pub struct PlayerActed(pub bool);

/// Carries out the player's chosen action.
pub struct PlayerControllerSystem {
    pub action: PlayerAction,
}

/// The four directions along an axis.
pub open spec fn orthogonal(d: Direction) -> bool {
    d is Up || d is Down || d is Left || d is Right
}

/// A direction is along an axis exactly when its step moves along one
/// coordinate only; so the tile faced that way from a tile near the origin
/// is one taxicab step away, and the tile faced any other way is two.
pub proof fn lemma_orthogonal_steps(d: Direction, p: Position)
    requires
        crate::level::near(p),
    ensures
        orthogonal(d) <==> ((crate::data::direction_step(d).0 != 0) != (crate::data::direction_step(d).1 != 0)),
        orthogonal(d) <==> crate::class1::taxicab(step_from(p, d), p) == 1,
        !orthogonal(d) ==> crate::class1::taxicab(step_from(p, d), p) == 2,
{
}

/// The tile the player of record `r` faces.
pub open spec fn faced_tile(r: LevelRecord) -> Position {
    step_from(r.position.unwrap(), r.player.unwrap().facing_direction)
}

/// `j` is the index of the first record with an item on `t`.
pub open spec fn is_first_item_at(rs: Seq<LevelRecord>, t: Position, j: int) -> bool {
    &&& 0 <= j < rs.len()
    &&& rs[j].item is Some
    &&& rs[j].position == Some(t)
    &&& forall|k: int| 0 <= k < j ==> !(#[trigger] rs[k].item is Some && rs[k].position == Some(t))
}

/// `s` is the first empty inventory slot.
pub open spec fn is_first_free_slot(inv: Seq<Option<Entity>>, s: int) -> bool {
    &&& 0 <= s < inv.len()
    &&& inv[s] is None
    &&& forall|k: int| 0 <= k < s ==> #[trigger] inv[k] is Some
}

/// A name as shown: "???" while concealed, nothing when there is none.
pub open spec fn shown_name(n: Option<Name>) -> Seq<char> {
    match n {
        Some(n) => if n.concealed {
            "???"@
        } else {
            n.text@
        },
        None => Seq::empty(),
    }
}

/// `l1` is `l0` after the player of record `pi` tried to pick up what it
/// faces along an axis: the first item on that tile goes into the first
/// empty inventory slot, leaves the floor, and the pick-up is reported.
/// `picked` tells whether it happened.
pub open spec fn picked_up(l0: Level, l1: Level, pi: int, picked: bool) -> bool {
    let rs = l0.records@;
    let pr = rs[pi];
    let pl = pr.player.unwrap();
    let t = faced_tile(pr);
    let can = orthogonal(pl.facing_direction) && (exists|j: int| is_first_item_at(rs, t, j)) && (exists|s: int|
        is_first_free_slot(pl.inventory@, s));
    &&& picked == can
    &&& !can ==> l1 == l0
    &&& can ==> {
        let j = choose|j: int| is_first_item_at(rs, t, j);
        let s = choose|s: int| is_first_free_slot(pl.inventory@, s);
        let p1 = l1.records@[pi].player.unwrap();
        let n0 = l0.message_log@.len();
        let m = l1.message_log@[n0 as int];
        &&& l1.wf()
        &&& l1.next_id == l0.next_id
        &&& l1.game_state == l0.game_state
        &&& l1.now_ms == l0.now_ms
        &&& l1.records@.len() == rs.len()
        &&& forall|k: int| 0 <= k < rs.len() && k != j && k != pi ==> #[trigger] l1.records@[k] == rs[k]
        &&& l1.records@[j] == LevelRecord { position: None, ..rs[j] }
        &&& l1.records@[pi] == LevelRecord { player: Some(p1), ..pr }
        &&& p1 == Player { inventory: p1.inventory, ..pl }
        &&& p1.inventory@ == pl.inventory@.update(s, Some(rs[j].entity))
        &&& l1.message_log@.len() == n0 + 1
        &&& l1.message_log@.drop_last() == l0.message_log@
        &&& m.text@ == "You picked up: "@ + shown_name(rs[j].name)
        &&& m.color == MessageColor::White
        &&& m.display_length == MessageDisplayLength::Medium
        &&& m.time_created == l0.now_ms
    }
}

/// `std::format!` with "You picked up: {}": the text, then the name.
#[verifier::external_body]
fn format_picked_up(name: &str) -> (s: String)
    ensures
        s@ == "You picked up: "@ + name@,
{
    format!("You picked up: {}", name)
}

fn is_orthogonal(d: Direction) -> (r: bool)
    ensures
        r == orthogonal(d),
        r == ((crate::data::direction_step(d).0 != 0) != (crate::data::direction_step(d).1 != 0)),
{
    match d {
        Direction::Up | Direction::Down | Direction::Left | Direction::Right => true,
        _ => false,
    }
}

fn pick_up(level: &mut Level, pi: usize) -> (picked: bool)
    requires
        old(level).wf(),
        pi < old(level).records@.len(),
        old(level).records@[pi as int].player is Some,
        old(level).records@[pi as int].position is Some,
    ensures
        final(level).wf(),
        picked_up(*old(level), *final(level), pi as int, picked),
{
    let ghost l0 = *level;
    let ghost rs = level.records@;
    let pr = level.records[pi];
    let pl = pr.player.unwrap();
    let pos = pr.position.unwrap();
    assert(near(rs[pi as int].position.unwrap()));
    let t = step_position(pos, pl.facing_direction);
    if !is_orthogonal(pl.facing_direction) {
        return false;
    }
    let mut j: usize = 0;
    while j < level.records.len() && !(level.records[j].item.is_some() && level.records[j].position == Some(t))
        invariant
            level.records@ == rs,
            j <= rs.len(),
            forall|k: int| 0 <= k < j ==> !(#[trigger] rs[k].item is Some && rs[k].position == Some(t)),
        decreases rs.len() - j,
    {
        j = j + 1;
    }
    if j == level.records.len() {
        assert(!exists|j: int| is_first_item_at(rs, t, j));
        return false;
    }
    let mut s: usize = 0;
    while s < 16 && pl.inventory[s].is_some()
        invariant
            s <= 16,
            forall|k: int| 0 <= k < s ==> #[trigger] pl.inventory@[k] is Some,
        decreases 16 - s,
    {
        s = s + 1;
    }
    if s == 16 {
        assert(!exists|s: int| is_first_free_slot(pl.inventory@, s));
        return false;
    }
    proof {
        let cj = choose|c: int| is_first_item_at(rs, t, c);
        assert(is_first_item_at(rs, t, j as int));
        if cj < j {
            assert(!(rs[cj].item is Some && rs[cj].position == Some(t)));
        } else if j < cj {
            assert(!(rs[j as int].item is Some && rs[j as int].position == Some(t)));
        }
        let cs = choose|c: int| is_first_free_slot(pl.inventory@, c);
        assert(is_first_free_slot(pl.inventory@, s as int));
        if cs < s {
            assert(pl.inventory@[cs] is Some);
        } else if s < cs {
            assert(pl.inventory@[s as int] is Some);
        }
    }
    let item_rec = level.records[j];
    assert(j != pi);
    level.set_record(j, LevelRecord { position: None, ..item_rec });
    let mut inventory = pl.inventory;
    inventory[s] = Some(item_rec.entity);
    let p1 = Player { inventory, ..pl };
    assert(pr.position matches Some(q) ==> near(q));
    level.set_record(pi, LevelRecord { player: Some(p1), ..pr });
    let name = match item_rec.name {
        Some(n) => n.get_text(),
        None => "",
    };
    proof {
        reveal_strlit("");
        reveal_strlit("???");
    }
    let text = format_picked_up(name);
    let now = level.now_ms;
    let ghost log0 = level.message_log@;
    level.message_log.new_message(text, MessageColor::White, MessageDisplayLength::Medium, now);
    assert(level.message_log@.drop_last() =~= log0);
    true
}

/// Whether the player of record `pi` faces a staircase along an axis.
pub open spec fn faces_staircase(rs: Seq<LevelRecord>, pi: int) -> bool {
    &&& orthogonal(rs[pi].player.unwrap().facing_direction)
    &&& exists|j: int|
        0 <= j < rs.len() && #[trigger] rs[j].staircase is Some && rs[j].position == Some(faced_tile(rs[pi]))
}

fn facing_staircase(level: &Level, pi: usize) -> (r: bool)
    requires
        level.wf(),
        pi < level.records@.len(),
        level.records@[pi as int].player is Some,
        level.records@[pi as int].position is Some,
    ensures
        r == faces_staircase(level.records@, pi as int),
{
    let pr = level.records[pi];
    let pl = pr.player.unwrap();
    let pos = pr.position.unwrap();
    assert(near(level.records@[pi as int].position.unwrap()));
    let t = step_position(pos, pl.facing_direction);
    if !is_orthogonal(pl.facing_direction) {
        return false;
    }
    let mut j: usize = 0;
    while j < level.records.len()
        invariant
            j <= level.records@.len(),
            pi < level.records@.len(),
            t == faced_tile(level.records@[pi as int]),
            orthogonal(level.records@[pi as int].player.unwrap().facing_direction),
            forall|k: int|
                0 <= k < j ==> !(#[trigger] level.records@[k].staircase is Some && level.records@[k].position
                    == Some(t)),
        decreases level.records@.len() - j,
    {
        if level.records[j].staircase.is_some() && level.records[j].position == Some(t) {
            assert(level.records@[j as int].staircase is Some && level.records@[j as int].position == Some(
                faced_tile(level.records@[pi as int]),
            ));
            return true;
        }
        j = j + 1;
    }
    false
}

/// Health after resting on the stairs: a fifth of the maximum (rounded to
/// the nearest) is recovered, up to the maximum, and every ooze stack,
/// hold and blight goes.
pub open spec fn rested(a: Attackable) -> Attackable {
    let healed = a.current_health + (2 * a.max_health + 5) / 10;
    Attackable {
        current_health: if healed > a.max_health {
            a.max_health
        } else {
            healed as u32
        },
        oozed_stacks: 0,
        cant_attack_turns: 0,
        cant_move_turns: 0,
        blight_stacks: 0,
        ..a
    }
}

/// `l1` is `l0` with record `i`'s health replaced by `a`.
pub open spec fn health_set(l0: Level, l1: Level, i: int, a: Attackable) -> bool {
    &&& l1 == Level { records: l1.records, ..l0 }
    &&& l1.records@ == l0.records@.update(i, LevelRecord { attackable: Some(a), ..l0.records@[i] })
}

/// `l1` is `l0` with the player of record `i` facing `d`.
pub open spec fn turned(l0: Level, l1: Level, i: int, d: Direction) -> bool {
    let r = l0.records@[i];
    &&& l1 == Level { records: l1.records, ..l0 }
    &&& l1.records@ == l0.records@.update(
        i,
        LevelRecord { player: Some(Player { facing_direction: d, ..r.player.unwrap() }), ..r },
    )
}

/// The player state after a turn: one more turn taken, and the countdown
/// to healing goes down, starting again at ten once it ran out.
pub open spec fn turn_counted(p: Player) -> Player {
    Player {
        turns_taken: if p.turns_taken < u32::MAX {
            (p.turns_taken + 1) as u32
        } else {
            p.turns_taken
        },
        heal_turns_left: if p.heal_turns_left == 0 {
            10
        } else {
            (p.heal_turns_left - 1) as u32
        },
        ..p
    }
}

/// Health after a turn: one health back (up to the maximum) when the
/// countdown to healing ran out.
pub open spec fn turn_healed(p: Player, a: Attackable) -> Attackable {
    if p.heal_turns_left == 0 {
        Attackable { current_health: if a.current_health >= a.max_health {
            a.max_health
        } else {
            (a.current_health + 1) as u32
        }, ..a }
    } else {
        a
    }
}

/// `l1` is `l0` after the turn of the player `pe` ended: its record (when it
/// still has a player state and health) counts the turn and may heal (see
/// `turn_counted` and `turn_healed`), and the monsters' turn begins.
pub open spec fn turn_finished(l0: Level, l1: Level, pe: Entity) -> bool {
    &&& l1 == Level { records: l1.records, game_state: GameState::EnemyTurn, ..l0 }
    &&& l1.records@ == match index_of_spec(l0.records@, pe) {
        Some(i) => {
            let r = l0.records@[i];
            if r.player is Some && r.attackable is Some {
                l0.records@.update(
                    i,
                    LevelRecord {
                        player: Some(turn_counted(r.player.unwrap())),
                        attackable: Some(turn_healed(r.player.unwrap(), r.attackable.unwrap())),
                        ..r
                    },
                )
            } else {
                l0.records@
            }
        },
        None => l0.records@,
    }
}

fn finish_turn(level: &mut Level, pe: Entity)
    requires
        old(level).wf(),
    ensures
        final(level).wf(),
        turn_finished(*old(level), *final(level), pe),
{
    match level.index_of(pe) {
        Some(i) => {
            let r = level.records[i];
            match (r.player, r.attackable) {
                (Some(p), Some(a)) => {
                    let turns = if p.turns_taken < u32::MAX {
                        p.turns_taken + 1
                    } else {
                        p.turns_taken
                    };
                    let (heal_turns, health) = if p.heal_turns_left == 0 {
                        (
                            10,
                            if a.current_health >= a.max_health {
                                a.max_health
                            } else {
                                a.current_health + 1
                            },
                        )
                    } else {
                        (p.heal_turns_left - 1, a.current_health)
                    };
                    assert(r.position matches Some(q) ==> near(q));
                    level.set_record(
                        i,
                        LevelRecord {
                            player: Some(Player { turns_taken: turns, heal_turns_left: heal_turns, ..p }),
                            attackable: Some(Attackable { current_health: health, ..a }),
                            ..r
                        },
                    );
                },
                _ => {},
            }
        },
        None => {},
    }
    level.game_state = GameState::EnemyTurn;
}

/// The inventory index of an item slot.
pub open spec fn slot_index(s: ItemSlot) -> int {
    match s {
        ItemSlot::One => 0,
        ItemSlot::Two => 1,
        ItemSlot::Three => 2,
        ItemSlot::Four => 3,
    }
}

/// `l1` is `l0` with `amount` crystals spent by the player `pe` (not below
/// zero).
pub open spec fn crystals_spent(l0: Level, l1: Level, pe: Entity, amount: u32) -> bool {
    &&& l1 == Level { records: l1.records, ..l0 }
    &&& l1.records@ == match index_of_spec(l0.records@, pe) {
        Some(i) => {
            let r = l0.records@[i];
            match r.player {
                Some(p) => l0.records@.update(i, LevelRecord { player: Some(Player { crystals: if p.crystals >= amount {
                    (p.crystals - amount) as u32
                } else {
                    0
                }, ..p }), ..r }),
                None => l0.records@,
            }
        },
        None => l0.records@,
    }
}

/// `l1` is `l0` with the item `ie` used up: its record is removed and the
/// player `pe`'s slot `slot` emptied.
pub open spec fn item_consumed(l0: Level, l1: Level, pe: Entity, ie: Entity, slot: int) -> bool {
    let rs1 = match index_of_spec(l0.records@, ie) {
        Some(i) => l0.records@.remove(i),
        None => l0.records@,
    };
    &&& l1 == Level { records: l1.records, ..l0 }
    &&& l1.records@.len() == rs1.len()
    &&& match index_of_spec(rs1, pe) {
        Some(i) => match rs1[i].player {
            Some(p) => {
                let p1 = l1.records@[i].player.unwrap();
                &&& forall|k: int| 0 <= k < rs1.len() && k != i ==> #[trigger] l1.records@[k] == rs1[k]
                &&& l1.records@[i] == LevelRecord { player: Some(p1), ..rs1[i] }
                &&& p1 == Player { inventory: p1.inventory, ..p }
                &&& p1.inventory@ == p.inventory@.update(slot, None)
            },
            None => l1.records@ == rs1,
        },
        None => l1.records@ == rs1,
    }
}

fn spend_crystals(level: &mut Level, pe: Entity, amount: u32)
    requires
        old(level).wf(),
    ensures
        final(level).wf(),
        crystals_spent(*old(level), *final(level), pe, amount),
{
    match level.index_of(pe) {
        Some(i) => {
            let r = level.records[i];
            match r.player {
                Some(p) => {
                    let crystals = if p.crystals >= amount {
                        p.crystals - amount
                    } else {
                        0
                    };
                    assert(r.position matches Some(q) ==> near(q));
                    level.set_record(i, LevelRecord { player: Some(Player { crystals, ..p }), ..r });
                },
                None => {},
            }
        },
        None => {},
    }
}

fn consume_item(level: &mut Level, pe: Entity, ie: Entity, slot: usize)
    requires
        old(level).wf(),
        slot < 16,
    ensures
        final(level).wf(),
        item_consumed(*old(level), *final(level), pe, ie, slot as int),
{
    level.delete_entity(ie);
    match level.index_of(pe) {
        Some(i) => {
            let r = level.records[i];
            match r.player {
                Some(p) => {
                    let mut inventory = p.inventory;
                    inventory[slot] = None;
                    assert(r.position matches Some(q) ==> near(q));
                    let p1 = Player { inventory, ..p };
                    level.set_record(i, LevelRecord { player: Some(p1), ..r });
                    assert(level.records@[i as int].player.unwrap() == p1);
                },
                None => {},
            }
        },
        None => {},
    }
}

/// `l2` is `l1` after the player of record `pi` took the stairs it faces,
/// if it faces any: it rests (see `rested`) and the next floor is laid out.
pub open spec fn stairs_taken(l1: Level, l2: Level, pi: int) -> bool {
    if faces_staircase(l1.records@, pi) {
        exists|lr: Level|
            #[trigger] health_set(l1, lr, pi, rested(l1.records@[pi].attackable.unwrap())) && floor_laid_out(lr, l2)
    } else {
        l2 == l1
    }
}

/// `l2` is `l1` with record `i` standing on `t`.
pub open spec fn stepped_to(l1: Level, l2: Level, i: int, t: Position) -> bool {
    &&& l2 == Level { records: l2.records, ..l1 }
    &&& l2.records@ == l1.records@.update(i, LevelRecord { position: Some(t), ..l1.records@[i] })
}

/// `l2` is `l1` with the crystals spent when the use ended the turn.
pub open spec fn spend_step(l1: Level, l2: Level, pe: Entity, amount: u32, ended: bool) -> bool {
    if ended {
        crystals_spent(l1, l2, pe, amount)
    } else {
        l2 == l1
    }
}

/// `l3` is `l2` with the item used up when the use consumed it.
pub open spec fn consume_step(l2: Level, l3: Level, pe: Entity, ie: Entity, slot: int, consumed: bool) -> bool {
    if consumed {
        item_consumed(l2, l3, pe, ie, slot)
    } else {
        l3 == l2
    }
}

/// The level has a player with a position and health.
pub open spec fn has_player(l: Level) -> bool {
    &&& player_index(l.records@) is Some
    &&& l.records@[player_index(l.records@).unwrap()].position is Some
    &&& l.records@[player_index(l.records@).unwrap()].attackable is Some
}

impl PlayerControllerSystem {
    pub fn new() -> (s: Self)
        ensures
            s.action == PlayerAction::Idle,
    {
        PlayerControllerSystem { action: PlayerAction::Idle }
    }

    /// Carries out the chosen action for the first player. Waiting ends the
    /// turn. Interacting picks up the item faced (see `picked_up`) and, when
    /// facing a staircase, rests the player (see `rested`) and lays out the
    /// next floor; either ends the turn. Turning changes where the player
    /// faces. Moving turns it too and, when the step succeeds (see
    /// `try_move`), ends the turn; otherwise the next action is the first
    /// item slot's. Using an item slot that holds an item uses it (see
    /// `use_item`, an Improvised Spellbook dealing `spell_damage`); when that
    /// ends the turn, its crystals are spent, and an
    /// item used up leaves the slot. A turn that ends clears the action and
    /// finishes the turn (see `turn_finished`). Returns whether the player
    /// acted.
    pub fn run(
        &mut self,
        generate_dungeon_system: &mut GenerateDungeonSystem,
        level: &mut Level,
        rng: &mut rand_pcg::Pcg64,
        spell_damage: u32,
    ) -> (r: PlayerActed)
        requires
            old(level).wf(),
            has_player(*old(level)),
            crate::weapons::netherbanes_counted(*old(level)),
        ensures
            final(level).wf(),
            r.0 ==> final(self).action == PlayerAction::Idle,
            ({
                let rs = old(level).records@;
                let pi = player_index(rs).unwrap();
                let pr = rs[pi];
                let pl = pr.player.unwrap();
                let pe = pr.entity;
                match old(self).action {
                    PlayerAction::Idle => !r.0 && *final(level) == *old(level) && final(self).action
                        == PlayerAction::Idle,
                    PlayerAction::Pass => r.0 && turn_finished(*old(level), *final(level), pe),
                    PlayerAction::Turn(d) => !r.0 && final(self).action == old(self).action && turned(
                        *old(level),
                        *final(level),
                        pi,
                        d,
                    ),
                    PlayerAction::Move(d) => {
                        let t = step_from(pr.position.unwrap(), d);
                        let can = !held(pr) && near(t) && tile_free(rs, t);
                        &&& r.0 == can
                        &&& exists|l1: Level|
                            #[trigger] turned(*old(level), l1, pi, d) && if can {
                                exists|l2: Level|
                                    #[trigger] stepped_to(l1, l2, pi, t) && turn_finished(l2, *final(level), pe)
                            } else {
                                *final(level) == l1 && final(self).action == PlayerAction::UseItem(ItemSlot::One)
                            }
                    },
                    PlayerAction::Interact => exists|l1: Level, picked: bool|
                        #[trigger] picked_up(*old(level), l1, pi, picked) && exists|l2: Level|
                            #[trigger] stairs_taken(l1, l2, pi) && {
                                &&& r.0 == (picked || faces_staircase(l1.records@, pi))
                                &&& r.0 ==> turn_finished(l2, *final(level), pe)
                                &&& !r.0 ==> *final(level) == l2 && final(self).action == old(self).action
                            },
                    PlayerAction::UseItem(slot) => {
                        let idx = slot_index(slot);
                        match pl.inventory@[idx] {
                            Some(ie) => match record_of(rs, ie) {
                            Some(ir) if ir.item is Some => {
                                let it = ir.item.unwrap();
                                exists|l1: Level, res: ItemResult|
                                    #[trigger] item_use_done(it.try_use, ie, pe, spell_damage, *old(level), l1, res) && exists|l2: Level|
                                        #[trigger] spend_step(l1, l2, pe, it.crystals_per_use, res.should_end_turn)
                                            && exists|l3: Level|
                                            #[trigger] consume_step(l2, l3, pe, ie, idx, res.should_consume_item) && {
                                                &&& r.0 == res.should_end_turn
                                                &&& r.0 ==> turn_finished(l3, *final(level), pe)
                                                &&& !r.0 ==> *final(level) == l3 && final(self).action == old(
                                                    self,
                                                ).action
                                            }
                            },
                            _ => !r.0 && *final(level) == *old(level) && final(self).action == old(self).action,
                            },
                            None => !r.0 && *final(level) == *old(level) && final(self).action == old(self).action,
                        }
                    },
                }
            }),
    {
        let pi = level.find_player().unwrap();
        let pr = level.records[pi];
        let pe = pr.entity;
        let pl = pr.player.unwrap();
        let ghost l0 = *level;
        let ghost mut g1: Level = l0;
        let ghost mut g2: Level = l0;
        let ghost mut g3: Level = l0;
        let ghost mut gp: bool = false;
        let ghost mut gres: ItemResult = ItemResult { should_end_turn: false, should_consume_item: false };
        let acted = match self.action {
            PlayerAction::Idle => false,
            PlayerAction::Pass => true,
            PlayerAction::Interact => {
                let picked = pick_up(level, pi);
                let ghost l1 = *level;
                proof {
                    g1 = l1;
                    gp = picked;
                }
                let stairs = facing_staircase(level, pi);
                if stairs {
                    let r1 = level.records[pi];
                    let a = r1.attackable.unwrap();
                    let healed = a.current_health as u64 + (2 * a.max_health as u64 + 5) / 10;
                    let health: u32 = if healed > a.max_health as u64 {
                        a.max_health
                    } else {
                        healed as u32
                    };
                    let a1 = Attackable {
                        current_health: health,
                        oozed_stacks: 0,
                        cant_attack_turns: 0,
                        cant_move_turns: 0,
                        blight_stacks: 0,
                        ..a
                    };
                    assert(r1.position matches Some(q) ==> near(q));
                    level.set_record(pi, LevelRecord { attackable: Some(a1), ..r1 });
                    let ghost lr = *level;
                    assert(health_set(l1, lr, pi as int, rested(l1.records@[pi as int].attackable.unwrap())));
                    proof {
                        lemma_player_index(level.records@, pi as int);
                    }
                    generate_dungeon_system.lay_out_level(level);
                }
                proof {
                    g2 = *level;
                    assert(stairs_taken(g1, g2, pi as int));
                }
                picked || stairs
            },
            PlayerAction::Turn(d) => {
                assert(pr.position matches Some(q) ==> near(q));
                level.set_record(pi, LevelRecord { player: Some(Player { facing_direction: d, ..pl }), ..pr });
                false
            },
            PlayerAction::Move(d) => {
                assert(pr.position matches Some(q) ==> near(q));
                level.set_record(pi, LevelRecord { player: Some(Player { facing_direction: d, ..pl }), ..pr });
                let ghost l1 = *level;
                proof {
                    lemma_index_unique(level.records@, level.next_id, pe, pi as int);
                    let t = step_from(pr.position.unwrap(), d);
                    if tile_free(l0.records@, t) {
                        assert forall|j: int| 0 <= j < l1.records@.len() implies !crate::level::blocks(
                            #[trigger] l1.records@[j],
                            t,
                        ) by {
                            assert(!crate::level::blocks(l0.records@[j], t));
                        }
                    }
                    if tile_free(l1.records@, t) {
                        assert forall|j: int| 0 <= j < l0.records@.len() implies !crate::level::blocks(
                            #[trigger] l0.records@[j],
                            t,
                        ) by {
                            assert(!crate::level::blocks(l1.records@[j], t));
                        }
                    }
                    assert(tile_free(l1.records@, t) == tile_free(l0.records@, t));
                }
                proof {
                    g1 = l1;
                }
                let moved = try_move(pe, d, level);
                proof {
                    g2 = *level;
                }
                match moved {
                    Ok(()) => true,
                    Err(()) => {
                        self.action = PlayerAction::UseItem(ItemSlot::One);
                        false
                    },
                }
            },
            PlayerAction::UseItem(slot) => {
                let idx: usize = match slot {
                    ItemSlot::One => 0,
                    ItemSlot::Two => 1,
                    ItemSlot::Three => 2,
                    ItemSlot::Four => 3,
                };
                match pl.inventory[idx] {
                    Some(ie) => match level.index_of(ie) {
                        Some(ii) => match level.records[ii].item {
                            Some(it) => {
                                proof {
                                    lemma_index_unique(level.records@, level.next_id, pe, pi as int);
                                    lemma_index_unique(level.records@, level.next_id, ie, ii as int);
                                }
                                let result = use_item(it.try_use, ie, pe, spell_damage, level, rng);
                                proof {
                                    g1 = *level;
                                    gres = result;
                                }
                                if result.should_end_turn {
                                    spend_crystals(level, pe, it.crystals_per_use);
                                }
                                proof {
                                    g2 = *level;
                                }
                                if result.should_consume_item {
                                    consume_item(level, pe, ie, idx);
                                }
                                proof {
                                    g3 = *level;
                                    lemma_index_unique(l0.records@, l0.next_id, ie, ii as int);
                                }
                                result.should_end_turn
                            },
                            None => false,
                        },
                        None => false,
                    },
                    None => false,
                }
            },
        };
        if acted {
            self.action = PlayerAction::Idle;
            finish_turn(level, pe);
        }
        proof {
            lemma_player_index(l0.records@, pi as int);
            match old(self).action {
                PlayerAction::Interact => {
                    assert(picked_up(l0, g1, pi as int, gp));
                    assert(stairs_taken(g1, g2, pi as int));
                },
                PlayerAction::Move(d) => {
                    assert(turned(l0, g1, pi as int, d));
                    if acted {
                        assert(stepped_to(g1, g2, pi as int, step_from(pr.position.unwrap(), d)));
                    }
                },
                PlayerAction::UseItem(slot) => {
                    match pl.inventory@[slot_index(slot)] {
                        Some(ie) => match record_of(l0.records@, ie) {
                            Some(ir) => {
                                if ir.item is Some {
                                    assert(item_use_done(ir.item.unwrap().try_use, ie, pe, spell_damage, l0, g1, gres));
                                    assert(spend_step(
                                        g1,
                                        g2,
                                        pe,
                                        ir.item.unwrap().crystals_per_use,
                                        gres.should_end_turn,
                                    ));
                                    assert(consume_step(g2, g3, pe, ie, slot_index(slot), gres.should_consume_item));
                                }
                            },
                            None => {},
                        },
                        None => {},
                    }
                },
                _ => {},
            }
        }
        PlayerActed(acted)
    }
}

} // verus!
