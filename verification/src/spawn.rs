//! Spawners: each counts the turns and, when its time comes, a random
//! monster of the first class appears on it if nothing stands there.

use crate::class1::{class1_choices, create_random_class1, level_obstacles, pc};
use crate::components::PositionComponent;
use crate::data::{Position, Rarity, Spawner};
use crate::level::{near, Level, LevelRecord};
use crate::rng::{choose_weighted_index, weight_total};
use rand_pcg::Pcg64;
use vstd::prelude::*;

verus! {

/// A spawner after counting a turn, and whether it fires: it fires once the
/// turns counted reach `turns_per_spawn`, and then counts from zero again.
pub open spec fn spawner_ticked(s: Spawner) -> (Spawner, bool) {
    let since: int = if s.turns_since_last_spawn < u32::MAX {
        s.turns_since_last_spawn + 1
    } else {
        u32::MAX as int
    };
    let fired = since >= s.turns_per_spawn;
    let next: u32 = if fired {
        0
    } else {
        since as u32
    };
    (Spawner { turns_since_last_spawn: next, ..s }, fired)
}

/// Whether a record is a spawner standing somewhere that fires this turn.
pub open spec fn fires(r: LevelRecord) -> bool {
    r.spawner matches Some(s) && r.position is Some && spawner_ticked(s).1
}

/// The records with every spawner that stands somewhere having counted a
/// turn.
pub open spec fn spawners_ticked(rs: Seq<LevelRecord>) -> Seq<LevelRecord> {
    rs.map_values(
        |r: LevelRecord|
            if r.spawner is Some && r.position is Some {
                LevelRecord { spawner: Some(spawner_ticked(r.spawner.unwrap()).0), ..r }
            } else {
                r
            },
    )
}

/// Whether a spawner that fires stands on `p`.
pub open spec fn fired_tile(rs: Seq<LevelRecord>, p: Position) -> bool {
    exists|j: int| 0 <= j < rs.len() && fires(rs[j]) && rs[j].position == Some(p)
}

/// A name of a monster of the first class.
pub open spec fn class1_name(t: &'static str) -> bool {
    class1_choices(Rarity::Common).contains(t) || class1_choices(Rarity::Uncommon).contains(t)
        || class1_choices(Rarity::Rare).contains(t)
}

/// Every spawner standing somewhere counts a turn (see `spawner_ticked`).
/// Then, on the tile of each one that fired, in table order, a random
/// monster of the first class appears (common seven times in ten, uncommon
/// five in twenty, rare one in twenty) unless something stood there at the
/// start or a monster already appeared there; the new monsters come after
/// the other records.
pub fn tick_spawners(level: &mut Level, rng: &mut Pcg64)
    requires
        old(level).wf(),
    ensures
        final(level).wf(),
        final(level).message_log == old(level).message_log,
        final(level).game_state == old(level).game_state,
        final(level).now_ms == old(level).now_ms,
        final(level).records@.len() >= old(level).records@.len(),
        final(level).records@.subrange(0, old(level).records@.len() as int) == spawners_ticked(old(level).records@),
        forall|k: int|
            old(level).records@.len() <= k < final(level).records@.len() ==> {
                let r = #[trigger] final(level).records@[k];
                &&& exists|j: int|
                    0 <= j < old(level).records@.len() && fires(old(level).records@[j]) && r.position
                        == old(level).records@[j].position
                &&& r.position is Some
                &&& !level_obstacles(old(level).records@).contains(pc(r.position.unwrap()))
                &&& class1_name(r.name.unwrap().text)
            },
        forall|a: int, b: int|
            old(level).records@.len() <= a < b < final(level).records@.len() ==> #[trigger] final(level).records@[a].position
                != #[trigger] final(level).records@[b].position,
        old(level).next_id + old(level).records@.len() < u64::MAX ==> forall|j: int|
            0 <= j < old(level).records@.len() && #[trigger] fires(old(level).records@[j]) && !level_obstacles(
                old(level).records@,
            ).contains(pc(old(level).records@[j].position.unwrap())) ==> exists|m: int|
                old(level).records@.len() <= m < final(level).records@.len() && #[trigger] final(level).records@[m].position
                    == old(level).records@[j].position,
{
    let ghost l0 = *level;
    let mut obstacles = crate::class1::obstacle_tiles(level);
    let n0 = level.records.len();
    let mut fired_at: Vec<Position> = Vec::new();
    let mut i: usize = 0;
    while i < n0
        invariant
            n0 == l0.records@.len(),
            level.wf(),
            level.records@.len() == n0,
            level.message_log == l0.message_log,
            level.game_state == l0.game_state,
            level.now_ms == l0.now_ms,
            level.next_id == l0.next_id,
            i <= n0,
            forall|k: int|
                0 <= k < n0 ==> #[trigger] level.records@[k] == if k < i {
                    spawners_ticked(l0.records@)[k]
                } else {
                    l0.records@[k]
                },
            forall|k: int| 0 <= k < fired_at@.len() ==> fired_tile(l0.records@, #[trigger] fired_at@[k]),
            forall|k: int| 0 <= k < fired_at@.len() ==> near(#[trigger] fired_at@[k]),
            fired_at@.len() <= i,
            forall|j: int|
                0 <= j < i && #[trigger] fires(l0.records@[j]) ==> fired_at@.contains(
                    l0.records@[j].position.unwrap(),
                ),
        decreases n0 - i,
    {
        let r = level.records[i];
        match (r.spawner, r.position) {
            (Some(s), Some(p)) => {
                let since = if s.turns_since_last_spawn < u32::MAX {
                    s.turns_since_last_spawn + 1
                } else {
                    u32::MAX
                };
                let fired = since >= s.turns_per_spawn;
                let next = if fired {
                    0
                } else {
                    since
                };
                assert(near(l0.records@[i as int].position.unwrap()));
                level.set_record(i, LevelRecord { spawner: Some(Spawner { turns_since_last_spawn: next, ..s }), ..r });
                if fired {
                    let ghost before = fired_at@;
                    fired_at.push(p);
                    proof {
                        assert(fired_at@[before.len() as int] == p);
                        assert forall|j: int|
                            0 <= j < i + 1 && #[trigger] fires(l0.records@[j]) implies fired_at@.contains(
                                l0.records@[j].position.unwrap(),
                            ) by {
                            if j < i {
                                let q = choose|q: int| 0 <= q < before.len() && before[q] == l0.records@[j].position.unwrap();
                                assert(fired_at@[q] == before[q]);
                            }
                        }
                        assert(fires(l0.records@[i as int]));
                        assert forall|q: int| 0 <= q < fired_at@.len() implies fired_tile(
                            l0.records@,
                            #[trigger] fired_at@[q],
                        ) by {
                            if q < before.len() {
                                assert(fired_at@[q] == before[q]);
                            } else {
                                assert(Some(fired_at@[q]) == l0.records@[i as int].position);
                            }
                        }
                    }
                }
            },
            _ => {},
        }
        i = i + 1;
    }
    assert(level.records@ =~= spawners_ticked(l0.records@));
    let ghost ticked = level.records@;
    let mut weights: Vec<u32> = Vec::new();
    weights.push(70);
    weights.push(25);
    weights.push(5);
    proof {
        assert(weights@.drop_last().drop_last().drop_last() =~= Seq::<u32>::empty());
        assert(weight_total(weights@) == 100) by {
            reveal_with_fuel(weight_total, 4);
        }
        assert(weights@[0] > 0);
    }
    let rarities = [Rarity::Common, Rarity::Uncommon, Rarity::Rare];
    let mut k: usize = 0;
    while k < fired_at.len()
        invariant
            n0 == l0.records@.len(),
            level.wf(),
            level.records@.len() >= n0,
            level.records@.subrange(0, n0 as int) == ticked,
            ticked == spawners_ticked(l0.records@),
            level.message_log == l0.message_log,
            level.game_state == l0.game_state,
            level.now_ms == l0.now_ms,
            weights@ == seq![70u32, 25u32, 5u32],
            weight_total(weights@) == 100,
            rarities@ == seq![Rarity::Common, Rarity::Uncommon, Rarity::Rare],
            k <= fired_at@.len(),
            forall|q: int| 0 <= q < fired_at@.len() ==> fired_tile(l0.records@, #[trigger] fired_at@[q]),
            forall|q: int| 0 <= q < fired_at@.len() ==> near(#[trigger] fired_at@[q]),
            fired_at@.len() <= n0,
            level.next_id == l0.next_id + (level.records@.len() - n0),
            level.records@.len() - n0 <= k,
            forall|j: int|
                0 <= j < n0 && #[trigger] fires(l0.records@[j]) ==> fired_at@.contains(
                    l0.records@[j].position.unwrap(),
                ),
            l0.next_id + n0 < u64::MAX ==> forall|q: int|
                0 <= q < k && !level_obstacles(l0.records@).contains(pc(#[trigger] fired_at@[q])) ==> exists|m: int|
                    n0 <= m < level.records@.len() && level.records@[m].position == Some(fired_at@[q]),
            obstacles@.len() == level_obstacles(l0.records@).len() + (level.records@.len() - n0),
            obstacles@.subrange(0, level_obstacles(l0.records@).len() as int) == level_obstacles(l0.records@),
            forall|m: int|
                n0 <= m < level.records@.len() ==> obstacles@[level_obstacles(l0.records@).len() + m - n0] == pc(
                    level.records@[m].position.unwrap(),
                ),
            forall|m: int|
                n0 <= m < level.records@.len() ==> {
                    let r = #[trigger] level.records@[m];
                    &&& exists|j: int|
                        0 <= j < n0 && fires(l0.records@[j]) && r.position == l0.records@[j].position
                    &&& r.position is Some
                    &&& !level_obstacles(l0.records@).contains(pc(r.position.unwrap()))
                    &&& class1_name(r.name.unwrap().text)
                },
            forall|a: int, b: int|
                n0 <= a < b < level.records@.len() ==> #[trigger] level.records@[a].position
                    != #[trigger] level.records@[b].position,
        decreases fired_at@.len() - k,
    {
        let p = fired_at[k];
        let tile = PositionComponent { x: p.x as i32, y: p.y as i32 };
        let ghost rs_start = level.records@;
        let ghost obs_start = obstacles@;
        if !crate::class1::contains_tile(&obstacles, tile) && level.next_id < u64::MAX {
            let w = choose_weighted_index(&weights, rng);
            let rarity = rarities[w];
            let ghost before = level.records@;
            let ghost obs_before = obstacles@;
            obstacles.push(tile);
            create_random_class1(rarity, p, level, rng);
            proof {
                let nl = level_obstacles(l0.records@).len();
                let last = (level.records@.len() - 1) as int;
                assert(level.records@.subrange(0, n0 as int) =~= before.subrange(0, n0 as int));
                assert forall|m: int| n0 <= m < level.records@.len() implies obstacles@[nl + m - n0] == pc(
                    level.records@[m].position.unwrap(),
                ) by {
                    if m < last {
                        assert(level.records@[m] == before[m]);
                    }
                }
                assert(obstacles@.subrange(0, nl as int) =~= obs_before.subrange(0, nl as int));
                assert(!level_obstacles(l0.records@).contains(tile)) by {
                    if level_obstacles(l0.records@).contains(tile) {
                        let q = choose|q: int| 0 <= q < nl && level_obstacles(l0.records@)[q] == tile;
                        assert(obs_before[q] == tile);
                    }
                }
                assert(fired_tile(l0.records@, fired_at@[k as int]));
                let j0 = choose|j: int|
                    0 <= j < l0.records@.len() && fires(l0.records@[j]) && l0.records@[j].position == Some(
                        fired_at@[k as int],
                    );
                assert(class1_name(level.records@[last].name.unwrap().text)) by {
                    let t = level.records@[last].name.unwrap().text;
                    if w == 0 {
                        assert(class1_choices(Rarity::Common).contains(t));
                    } else if w == 1 {
                        assert(class1_choices(Rarity::Uncommon).contains(t));
                    } else {
                        assert(class1_choices(Rarity::Rare).contains(t));
                    }
                }
                assert forall|m: int| n0 <= m < level.records@.len() implies {
                    let r = #[trigger] level.records@[m];
                    &&& exists|j: int|
                        0 <= j < n0 && fires(l0.records@[j]) && r.position == l0.records@[j].position
                    &&& r.position is Some
                    &&& !level_obstacles(l0.records@).contains(pc(r.position.unwrap()))
                    &&& class1_name(r.name.unwrap().text)
                } by {
                    if m < last {
                        assert(level.records@[m] == before[m]);
                    } else {
                        assert(pc(p) == tile);
                        assert(level.records@[m].position == l0.records@[j0].position);
                    }
                }
                assert forall|a: int, b: int|
                    n0 <= a < b < level.records@.len() implies #[trigger] level.records@[a].position
                        != #[trigger] level.records@[b].position by {
                    if b < last {
                        assert(level.records@[a] == before[a]);
                        assert(level.records@[b] == before[b]);
                    } else {
                        assert(level.records@[a] == before[a]);
                        assert(obs_before[nl + a - n0] == pc(before[a].position.unwrap()));
                        if before[a].position == Some(p) {
                            assert(obs_before.contains(tile));
                        }
                    }
                }
            }
        }
        proof {
            let nl = level_obstacles(l0.records@).len();
            if l0.next_id + n0 < u64::MAX {
                assert forall|q: int|
                    0 <= q < k + 1 && !level_obstacles(l0.records@).contains(pc(#[trigger] fired_at@[q])) implies exists|m: int|
                        n0 <= m < level.records@.len() && level.records@[m].position == Some(fired_at@[q]) by {
                    if q < k {
                        let m = choose|m: int|
                            n0 <= m < rs_start.len() && rs_start[m].position == Some(fired_at@[q]);
                        assert(level.records@[m] == rs_start[m]);
                    } else if level.records@.len() > rs_start.len() {
                        let last = (level.records@.len() - 1) as int;
                        assert(level.records@[last].position == Some(p));
                    } else {
                        assert(obs_start.contains(tile));
                        let idx = choose|idx: int| 0 <= idx < obs_start.len() && obs_start[idx] == tile;
                        if idx < nl {
                            assert(obs_start.subrange(0, nl as int)[idx] == tile);
                            assert(level_obstacles(l0.records@)[idx] == tile);
                        } else {
                            let m = n0 + idx - nl;
                            assert(obs_start[nl + m - n0] == pc(rs_start[m].position.unwrap()));
                            assert(rs_start[m].position == Some(p));
                        }
                    }
                }
            }
        }
        k = k + 1;
    }
}

} // verus!
