//! The end of a turn under the item-and-crystal rules: holds wear off by a
//! turn, and blight deals its damage.

use crate::attack::{attackable_of, damage, damage_done, needs_position, position_of};
use crate::data::{Attackable, GameState, MessageColor, MessageDisplayLength};
use crate::level::{index_of_spec, is_index_of, lemma_index_unique, player_index, Level, LevelRecord};
use crate::world::Entity;
use vstd::prelude::*;

verus! {

/// Whose turn ends: the first player's on the player's turn, otherwise
/// every entity with health, in table order.
pub open spec fn ending_turn(l: Level) -> Seq<Entity> {
    let rs = l.records@;
    if l.game_state == GameState::PlayerTurn {
        seq![rs[player_index(rs).unwrap()].entity]
    } else {
        rs.filter(|r: LevelRecord| r.attackable is Some).map_values(|r: LevelRecord| r.entity)
    }
}

/// Health a turn later: a turn off every hold and one blight stack less.
pub open spec fn worn_off(a: Attackable) -> Attackable {
    Attackable {
        cant_attack_turns: if a.cant_attack_turns > 0 {
            (a.cant_attack_turns - 1) as u32
        } else {
            0
        },
        cant_move_turns: if a.cant_move_turns > 0 {
            (a.cant_move_turns - 1) as u32
        } else {
            0
        },
        blight_stacks: if a.blight_stacks > 0 {
            (a.blight_stacks - 1) as u32
        } else {
            0
        },
        ..a
    }
}

/// The records with the turn of every entity of `es` ended, when no
/// blight is involved.
pub open spec fn worn_records(rs: Seq<LevelRecord>, es: Seq<Entity>) -> Seq<LevelRecord> {
    rs.map_values(
        |r: LevelRecord|
            if es.contains(r.entity) && r.attackable is Some {
                LevelRecord { attackable: Some(worn_off(r.attackable.unwrap())), ..r }
            } else {
                r
            },
    )
}

/// Some entity of `es` is blighted.
pub open spec fn any_blight(rs: Seq<LevelRecord>, es: Seq<Entity>) -> bool {
    exists|k: int|
        0 <= k < rs.len() && es.contains(#[trigger] rs[k].entity) && (rs[k].attackable matches Some(a)
            && a.blight_stacks > 0)
}

/// The name record `i` of `l` is shown by: "???" while concealed, nothing
/// without a name.
pub open spec fn shown_name(l: Level, i: int) -> Seq<char> {
    match l.records@[i].name {
        Some(n) => if n.concealed {
            "???"@
        } else {
            n.text@
        },
        None => Seq::empty(),
    }
}

/// The end of the turn of blighted record `i` of `l0`, through `worn`
/// (its holds and a blight stack worn off) and `told` (the player told of
/// the blight, by the name shown), to `l1`: one damage with no attacker
/// (see `attack::damage_done`), unless its death would need a position it
/// lacks.
pub open spec fn blight_via(l0: Level, worn: Level, told: Level, l1: Level, i: int) -> bool {
    let r = l0.records@[i];
    let a = r.attackable.unwrap();
    let msg = told.message_log@.last();
    &&& worn == (Level { records: worn.records, ..l0 })
    &&& worn.records@ == l0.records@.update(i, LevelRecord { attackable: Some(worn_off(a)), ..r })
    &&& told == (Level { message_log: told.message_log, ..worn })
    &&& told.message_log@.len() == worn.message_log@.len() + 1
    &&& told.message_log@.drop_last() == worn.message_log@
    &&& msg.text@ == shown_name(l0, i) + " took 1 damage from blight"@
    &&& msg.color == MessageColor::Green
    &&& msg.display_length == MessageDisplayLength::Short
    &&& msg.time_created == l0.now_ms
    &&& if needs_position(worn_off(a)) && r.position is None {
        l1 == told
    } else {
        exists|res: (bool, u32)| #[trigger] damage_done(told, l1, 1, false, None, r.entity, res)
    }
}

/// The end of `e`'s turn, from `l0` to `l1`: with health, its holds wear
/// off by a turn (see `worn_off`) and, when blighted, `blight_via` says the
/// rest; without health, or gone, nothing changes.
pub open spec fn turn_end_step(l0: Level, l1: Level, e: Entity) -> bool {
    match index_of_spec(l0.records@, e) {
        Some(i) => match l0.records@[i].attackable {
            Some(a) => if a.blight_stacks == 0 {
                &&& l1 == (Level { records: l1.records, ..l0 })
                &&& l1.records@ == l0.records@.update(i, LevelRecord { attackable: Some(worn_off(a)), ..l0.records@[i] })
            } else {
                exists|worn: Level, told: Level| #[trigger] blight_via(l0, worn, told, l1, i)
            },
            None => l1 == l0,
        },
        None => l1 == l0,
    }
}

/// The turns of every entity of `es` end in turn, leading from `l0` to `l1`
/// (see `turn_end_step`).
pub open spec fn turns_ended(l0: Level, l1: Level, es: Seq<Entity>) -> bool {
    exists|levels: Seq<Level>|
        {
            &&& levels.len() == es.len() + 1
            &&& levels[0] == l0
            &&& levels.last() == l1
            &&& forall|k: int| 0 <= k < es.len() ==> #[trigger] turn_end_step(levels[k], levels[k + 1], es[k])
        }
}

/// `std::format!` with "{} took 1 damage from blight": the name, then the
/// text.
#[verifier::external_body]
fn format_blight(name: &str) -> (s: String)
    ensures
        s@ == name@ + " took 1 damage from blight"@,
{
    format!("{} took 1 damage from blight", name)
}

fn entities_with_health(level: &Level) -> (r: Vec<Entity>)
    requires
        level.wf(),
    ensures
        r@ == level.records@.filter(|r: LevelRecord| r.attackable is Some).map_values(|r: LevelRecord| r.entity),
        forall|a: int, b: int| 0 <= a < b < r@.len() ==> #[trigger] r@[a] != #[trigger] r@[b],
{
    let ghost rs = level.records@;
    let mut r: Vec<Entity> = Vec::new();
    let mut i: usize = 0;
    while i < level.records.len()
        invariant
            rs == level.records@,
            i <= rs.len(),
            r@ == rs.subrange(0, i as int).filter(|q: LevelRecord| q.attackable is Some).map_values(
                |q: LevelRecord| q.entity,
            ),
            level.wf(),
            forall|a: int| 0 <= a < r@.len() ==> exists|b: int| 0 <= b < i && #[trigger] r@[a] == rs[b].entity,
            forall|a: int, b: int| 0 <= a < b < r@.len() ==> #[trigger] r@[a] != #[trigger] r@[b],
        decreases rs.len() - i,
    {
        let rec = level.records[i];
        proof {
            assert(rs.subrange(0, i + 1).drop_last() =~= rs.subrange(0, i as int));
            reveal_with_fuel(Seq::filter, 1);
        }
        let ghost before = r@;
        if rec.attackable.is_some() {
            r.push(rec.entity);
            proof {
                assert forall|a: int| 0 <= a < before.len() implies #[trigger] r@[a] != rec.entity by {
                    let b = choose|b: int| 0 <= b < i && before[a] == rs[b].entity;
                    assert(rs[b].entity != rs[i as int].entity);
                }
            }
        }
        proof {
            let f = |q: LevelRecord| q.attackable is Some;
            let f0 = rs.subrange(0, i as int).filter(f);
            let f1 = rs.subrange(0, i + 1).filter(f);
            if rec.attackable is Some {
                assert(f1 == f0.push(rec));
                assert(f1.map_values(|q: LevelRecord| q.entity) =~= f0.map_values(|q: LevelRecord| q.entity).push(
                    rec.entity,
                ));
            } else {
                assert(f1 == f0);
            }
        }
        i = i + 1;
    }
    assert(rs.subrange(0, i as int) =~= rs);
    r
}

/// Ends the turn of each entity of `ending_turn` in order (see
/// `turn_end_step`): its holds wear off by a turn and, when blighted, it
/// loses a blight stack, the player is told, and it takes one damage (see
/// `damage`). Without blight the result is `worn_records`. On the player's
/// turn there must be a player.
pub fn end_of_turn(level: &mut Level)
    requires
        old(level).wf(),
        old(level).game_state == GameState::PlayerTurn ==> player_index(old(level).records@) is Some,
    ensures
        final(level).wf(),
        final(level).game_state == old(level).game_state,
        final(level).now_ms == old(level).now_ms,
        !any_blight(old(level).records@, ending_turn(*old(level))) ==> *final(level) == (Level {
            records: final(level).records,
            ..*old(level)
        }) && final(level).records@ == worn_records(old(level).records@, ending_turn(*old(level))),
        turns_ended(*old(level), *final(level), ending_turn(*old(level))),
{
    let ghost l0 = *level;
    let es: Vec<Entity> = if level.game_state == GameState::PlayerTurn {
        let i = level.find_player().unwrap();
        let mut v: Vec<Entity> = Vec::new();
        v.push(level.records[i].entity);
        assert(v@ =~= seq![l0.records@[player_index(l0.records@).unwrap()].entity]);
        v
    } else {
        entities_with_health(level)
    };
    assert(es@ == ending_turn(l0));
    let ghost blight_free = !any_blight(l0.records@, es@);
    let ghost mut levels: Seq<Level> = seq![*level];
    let mut k: usize = 0;
    while k < es.len()
        invariant
            levels.len() == k + 1,
            levels[0] == l0,
            levels.last() == *level,
            forall|j: int| 0 <= j < k ==> #[trigger] turn_end_step(levels[j], levels[j + 1], es@[j]),
            level.wf(),
            l0.wf(),
            level.game_state == l0.game_state,
            level.now_ms == l0.now_ms,
            k <= es@.len(),
            es@ == ending_turn(l0),
            forall|a: int, b: int| 0 <= a < b < es@.len() ==> #[trigger] es@[a] != #[trigger] es@[b],
            blight_free == !any_blight(l0.records@, es@),
            blight_free ==> *level == (Level { records: level.records, ..l0 }),
            blight_free ==> level.records@ == worn_records(l0.records@, es@.subrange(0, k as int)),
        decreases es@.len() - k,
    {
        let e = es[k];
        let ghost lk = *level;
        proof {
            let s0 = es@.subrange(0, k as int);
            let s1 = es@.subrange(0, k + 1);
            assert(s1 =~= s0.push(e));
            if s0.contains(e) {
                let a = choose|a: int| 0 <= a < s0.len() && s0[a] == e;
                assert(es@[a] != es@[k as int]);
            }
            assert forall|x: Entity| s1.contains(x) <==> (s0.contains(x) || x == e) by {
                if s1.contains(x) && x != e {
                    let a = choose|a: int| 0 <= a < s1.len() && s1[a] == x;
                    assert(s0[a] == x);
                }
                if s0.contains(x) {
                    let a = choose|a: int| 0 <= a < s0.len() && s0[a] == x;
                    assert(s1[a] == x);
                }
                if x == e {
                    assert(s1[k as int] == x);
                }
            }
        }
        match level.index_of(e) {
            Some(i) => {
                proof {
                    lemma_index_unique(level.records@, level.next_id, e, i as int);
                }
                let r = level.records[i];
                match r.attackable {
                    Some(a) => {
                        let blighted = a.blight_stacks > 0;
                        let w = Attackable {
                            cant_attack_turns: if a.cant_attack_turns > 0 {
                                a.cant_attack_turns - 1
                            } else {
                                0
                            },
                            cant_move_turns: if a.cant_move_turns > 0 {
                                a.cant_move_turns - 1
                            } else {
                                0
                            },
                            blight_stacks: if a.blight_stacks > 0 {
                                a.blight_stacks - 1
                            } else {
                                0
                            },
                            ..a
                        };
                        assert(r.position matches Some(q) ==> crate::level::near(q));
                        let ghost before = level.records@;
                        level.set_record(i, LevelRecord { attackable: Some(w), ..r });
                        proof {
                            if blight_free {
                                assert(!blighted) by {
                                    if blighted {
                                        assert(before[i as int] == l0.records@[i as int]);
                                        assert(es@.contains(e));
                                    }
                                }
                            }
                        }
                        let ghost worn = *level;
                        if blighted {
                            let name = match r.name {
                                Some(n) => n.get_text(),
                                None => "",
                            };
                            proof {
                                reveal_strlit("");
                                reveal_strlit("???");
                            }
                            assert(name@ == shown_name(lk, i as int));
                            let text = format_blight(name);
                            let now = level.now_ms;
                            level.message_log.new_message(text, MessageColor::Green, MessageDisplayLength::Short, now);
                            let ghost told = *level;
                            proof {
                                lemma_index_unique(level.records@, level.next_id, e, i as int);
                            }
                            if !(((w.explode_on_death.0 != 0 && w.explode_on_death.1 != 0) || w.is_boss) && r.position.is_none()) {
                                let res = damage(1, false, None, e, level);
                                assert(damage_done(told, *level, 1, false, None, r.entity, res));
                            }
                            proof {
                                let rr = lk.records@[i as int];
                                let aa = rr.attackable.unwrap();
                                assert(w == worn_off(aa));
                                assert(worn == (Level { records: worn.records, ..lk }));
                                assert(told.message_log@.drop_last() == worn.message_log@);
                            }
                            assert(blight_via(lk, worn, told, *level, i as int));
                        }
                        proof {
                            if blight_free {
                                assert forall|j: int| 0 <= j < l0.records@.len() implies #[trigger] level.records@[j]
                                    == worn_records(l0.records@, es@.subrange(0, k + 1))[j] by {
                                    if j != i {
                                        assert(l0.records@[j].entity != l0.records@[i as int].entity);
                                    }
                                }
                                assert(level.records@ =~= worn_records(l0.records@, es@.subrange(0, k + 1)));
                            }
                        }
                    },
                    None => {
                        proof {
                            if blight_free {
                                assert forall|j: int| 0 <= j < l0.records@.len() implies #[trigger] level.records@[j]
                                    == worn_records(l0.records@, es@.subrange(0, k + 1))[j] by {
                                    if j != i {
                                        assert(l0.records@[j].entity != l0.records@[i as int].entity);
                                    }
                                }
                                assert(level.records@ =~= worn_records(l0.records@, es@.subrange(0, k + 1)));
                            }
                        }
                    },
                }
            },
            None => {
                proof {
                    if blight_free {
                        assert forall|j: int| 0 <= j < l0.records@.len() implies #[trigger] level.records@[j]
                            == worn_records(l0.records@, es@.subrange(0, k + 1))[j] by {
                            assert(!is_index_of(level.records@, e, j));
                            assert(level.records@[j].entity == l0.records@[j].entity);
                        }
                        assert(level.records@ =~= worn_records(l0.records@, es@.subrange(0, k + 1)));
                    }
                }
            },
        }
        assert(turn_end_step(lk, *level, e));
        proof {
            levels = levels.push(*level);
        }
        k = k + 1;
    }
    assert(es@.subrange(0, k as int) =~= es@);
    assert(turns_ended(l0, *level, es@));
}

} // verus!
