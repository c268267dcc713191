//! The monsters' turn under the item-and-crystal rules: every monster with
//! a behaviour acts, nearest to the player first.

use crate::class1::{behaviour_done, both_standing, run_behaviour, taxicab, Behaviour};
use crate::data::Position;
use crate::level::{lemma_index_unique, near, player_index, record_of, Level};
use crate::stages::{actor_order, sort_actors};
use crate::world::Entity;
use rand_pcg::Pcg64;
use vstd::prelude::*;
use vstd::relations::sorted_by;

verus! {

/// The taxicab distance between two tiles near the origin.
fn distance_between(a: Position, b: Position) -> (d: u32)
    requires
        near(a),
        near(b),
    ensures
        d == taxicab(a, b),
{
    let dx: i32 = if a.x < b.x {
        b.x as i32 - a.x as i32
    } else {
        a.x as i32 - b.x as i32
    };
    let dy: i32 = if a.y < b.y {
        b.y as i32 - a.y as i32
    } else {
        a.y as i32 - b.y as i32
    };
    (dx + dy) as u32
}

/// The monsters (records with a behaviour and a position) keyed by their
/// taxicab distance to `from` and their index, nearest first and in table
/// order at equal distance; every such record is listed.
pub fn monster_order(level: &Level, from: Position) -> (r: Vec<(u32, usize, Entity)>)
    requires
        level.wf(),
        near(from),
    ensures
        sorted_by(r@, actor_order()),
        forall|k: int|
            0 <= k < r@.len() ==> {
                let (d, i, e) = #[trigger] r@[k];
                &&& 0 <= i < level.records@.len()
                &&& level.records@[i as int].ai is Some
                &&& level.records@[i as int].position is Some
                &&& level.records@[i as int].entity == e
                &&& d == taxicab(level.records@[i as int].position.unwrap(), from)
            },
        forall|i: int|
            0 <= i < level.records@.len() && #[trigger] level.records@[i].ai is Some && level.records@[i].position is Some
                ==> exists|k: int| 0 <= k < r@.len() && r@[k].1 == i,
{
    let n = level.records.len();
    let mut keyed: Vec<(u32, usize, Entity)> = Vec::new();
    let mut i: usize = 0;
    while i < n
        invariant
            n == level.records@.len(),
            i <= n,
            level.wf(),
            near(from),
            forall|j: int|
                0 <= j < keyed@.len() ==> {
                    let (d, k, e) = #[trigger] keyed@[j];
                    &&& 0 <= k < n
                    &&& level.records@[k as int].ai is Some
                    &&& level.records@[k as int].position is Some
                    &&& level.records@[k as int].entity == e
                    &&& d == taxicab(level.records@[k as int].position.unwrap(), from)
                },
            forall|j: int|
                0 <= j < i && #[trigger] level.records@[j].ai is Some && level.records@[j].position is Some ==> exists|
                    k: int,
                | 0 <= k < keyed@.len() && keyed@[k].1 == j,
        decreases n - i,
    {
        let r = level.records[i];
        let ghost before = keyed@;
        match (r.ai, r.position) {
            (Some(_), Some(p)) => {
                assert(near(level.records@[i as int].position.unwrap()));
                let d = distance_between(p, from);
                keyed.push((d, i, r.entity));
                assert(keyed@[keyed@.len() - 1].1 == i);
            },
            _ => {},
        }
        proof {
            assert forall|j: int|
                0 <= j < i + 1 && #[trigger] level.records@[j].ai is Some && level.records@[j].position is Some implies exists|
                    k: int,
                | 0 <= k < keyed@.len() && keyed@[k].1 == j by {
                if j < i {
                    let k = choose|k: int| 0 <= k < before.len() && before[k].1 == j;
                    assert(keyed@[k] == before[k]);
                } else {
                    assert(keyed@[keyed@.len() - 1].1 == j);
                }
            }
        }
        i = i + 1;
    }
    let sorted = sort_actors(&keyed);
    proof {
        broadcast use vstd::seq_lib::group_to_multiset_ensures;

        assert forall|k: int| 0 <= k < sorted@.len() implies keyed@.contains(#[trigger] sorted@[k]) by {
            assert(sorted@.to_multiset().count(sorted@[k]) > 0);
        }
        assert forall|j: int|
            0 <= j < n && #[trigger] level.records@[j].ai is Some && level.records@[j].position is Some implies exists|
                k: int,
            | 0 <= k < sorted@.len() && sorted@[k].1 == j by {
            let k = choose|k: int| 0 <= k < keyed@.len() && keyed@[k].1 == j;
            assert(keyed@.to_multiset().count(keyed@[k]) > 0);
            assert(sorted@.contains(keyed@[k]));
        }
    }
    sorted
}

/// Whether `order` lists the monsters of `level` (records with a behaviour
/// and a position) as `monster_order` does: keyed by their taxicab distance
/// to `from` and their index, nearest first and in table order at equal
/// distance, every such record listed.
pub open spec fn monsters_listed(level: Level, from: Position, order: Seq<(u32, usize, Entity)>) -> bool {
    &&& sorted_by(order, actor_order())
    &&& forall|k: int|
        0 <= k < order.len() ==> {
            let (d, i, e) = #[trigger] order[k];
            &&& 0 <= i < level.records@.len()
            &&& level.records@[i as int].ai is Some
            &&& level.records@[i as int].position is Some
            &&& level.records@[i as int].entity == e
            &&& d == taxicab(level.records@[i as int].position.unwrap(), from)
        }
    &&& forall|i: int|
        0 <= i < level.records@.len() && #[trigger] level.records@[i].ai is Some && level.records@[i].position is Some
            ==> exists|k: int| 0 <= k < order.len() && order[k].1 == i
}

/// The behaviour `e` acts with in `l`: its own, while it stands somewhere.
pub open spec fn standing_behaviour(l: Level, e: Entity) -> Option<Behaviour> {
    match record_of(l.records@, e) {
        Some(r) => if r.position is Some {
            r.ai
        } else {
            None
        },
        None => None,
    }
}

/// One monster's go in the monsters' turn: with a behaviour while it stands
/// somewhere, and with the player `pe` standing somewhere and able to be
/// hurt, `e` acts (see `class1::behaviour_done`); otherwise nothing changes.
pub open spec fn monster_go(l0: Level, l1: Level, e: Entity, pe: Entity) -> bool {
    match standing_behaviour(l0, e) {
        Some(b) => if both_standing(l0, e, pe) {
            behaviour_done(b, l0, l1, e, pe)
        } else {
            l1 == l0
        },
        None => l1 == l0,
    }
}

/// Whether the monsters of `order`, one after the other, lead from `l0` to
/// `l1` (see `monster_go`).
pub open spec fn monsters_went(l0: Level, l1: Level, order: Seq<(u32, usize, Entity)>, pe: Entity) -> bool {
    exists|levels: Seq<Level>|
        {
            &&& levels.len() == order.len() + 1
            &&& levels[0] == l0
            &&& levels.last() == l1
            &&& forall|k: int|
                0 <= k < order.len() ==> #[trigger] monster_go(levels[k], levels[k + 1], order[k].2, pe)
        }
}

/// The monsters' turn: each monster (see `monster_order`, measured from the
/// first player, which must stand somewhere) that still stands somewhere
/// with its behaviour acts against the player (see `run_behaviour`), as
/// long as the player still stands somewhere with health.
pub fn enemy_controller_system(level: &mut Level, rng: &mut Pcg64)
    requires
        old(level).wf(),
        player_index(old(level).records@) matches Some(i) && old(level).records@[i].position is Some,
    ensures
        final(level).wf(),
        ({
            let i = player_index(old(level).records@).unwrap();
            let pe = old(level).records@[i].entity;
            let from = old(level).records@[i].position.unwrap();
            exists|order: Seq<(u32, usize, Entity)>|
                #[trigger] monsters_listed(*old(level), from, order) && monsters_went(
                    *old(level),
                    *final(level),
                    order,
                    pe,
                )
        }),
{
    let pi = level.find_player().unwrap();
    let player = level.records[pi];
    let pe = player.entity;
    let from = player.position.unwrap();
    assert(near(level.records@[pi as int].position.unwrap()));
    let order = monster_order(level, from);
    assert(monsters_listed(*level, from, order@));
    let ghost l0 = *level;
    let ghost mut levels: Seq<Level> = seq![*level];
    let mut k: usize = 0;
    while k < order.len()
        invariant
            level.wf(),
            k <= order@.len(),
            levels.len() == k + 1,
            levels[0] == l0,
            levels.last() == *level,
            forall|j: int| 0 <= j < k ==> #[trigger] monster_go(levels[j], levels[j + 1], order@[j].2, pe),
        decreases order@.len() - k,
    {
        let ghost before = *level;
        let e = order[k].2;
        let b: Option<Behaviour> = match level.index_of(e) {
            Some(j) => {
                let r = level.records[j];
                if r.position.is_some() {
                    r.ai
                } else {
                    None
                }
            },
            None => None,
        };
        match b {
            Some(b) => {
                let target_ok = match level.index_of(pe) {
                    Some(j) => {
                        proof {
                            lemma_index_unique(level.records@, level.next_id, pe, j as int);
                        }
                        level.records[j].position.is_some() && level.records[j].attackable.is_some()
                    },
                    None => false,
                };
                if target_ok {
                    proof {
                        let j = crate::level::index_of_spec(level.records@, e).unwrap();
                        lemma_index_unique(level.records@, level.next_id, e, j);
                    }
                    assert(both_standing(*level, e, pe));
                    run_behaviour(b, e, pe, level, rng);
                }
            },
            None => {},
        }
        assert(monster_go(before, *level, order@[k as int].2, pe));
        proof {
            levels = levels.push(*level);
        }
        k = k + 1;
    }
    assert(monsters_went(l0, *level, order@, pe));
}

} // verus!
