//! What the screen shows: a 15 by 15 tile window centred on the player, the
//! player's facing marker, and the timing of the animations.

use crate::components::PositionComponent;
use crate::game::{combat_of, Animation, Game};
use crate::world::{in_bounds, record_ok, Entity, EntityRecord};
use vstd::prelude::*;

verus! {

/// The window coordinates of `p` seen from `player`: the player's tile is
/// (7, 7) and `y` grows downwards.
pub open spec fn window_tile(player: PositionComponent, p: PositionComponent) -> PositionComponent {
    PositionComponent { x: (p.x - player.x + 7) as i32, y: (player.y - p.y + 7) as i32 }
}

/// `window_tile` seen from `player`, as a function of the tile.
pub open spec fn window_from(player: PositionComponent) -> spec_fn(PositionComponent) -> PositionComponent {
    |p: PositionComponent| window_tile(player, p)
}

/// Both window coordinates are in `0..15`.
pub open spec fn on_screen(v: PositionComponent) -> bool {
    0 <= v.x < 15 && 0 <= v.y < 15
}

fn window_tile_exec(player: PositionComponent, p: PositionComponent) -> (v: PositionComponent)
    requires
        in_bounds(player),
        in_bounds(p),
    ensures
        v == window_tile(player, p),
{
    let x: i64 = p.x as i64 - player.x as i64 + 7;
    let y: i64 = player.y as i64 - p.y as i64 + 7;
    PositionComponent { x: x as i32, y: y as i32 }
}

/// The entity an animation keeps off the screen while it plays: the one a
/// damage animation shows being hit.
pub open spec fn hidden_by(a: Option<Animation>) -> Option<Entity> {
    match a {
        Some(Animation::Damage { damaged_entity, .. }) => Some(damaged_entity),
        _ => None,
    }
}

/// Whether `rec` is drawn when seen from `player`: its window tile is on
/// screen and it is not the entity `hidden` keeps off the screen.
pub open spec fn shown_from(player: PositionComponent, hidden: Option<Entity>, rec: EntityRecord) -> bool {
    on_screen(window_tile(player, rec.position)) && hidden != Some(rec.entity)
}

/// The window tiles and sprites of the records of `recs` drawn when seen
/// from `player`, in order.
pub open spec fn sprites_shown(recs: Seq<EntityRecord>, player: PositionComponent, hidden: Option<Entity>) -> Seq<
    (PositionComponent, &'static str),
> {
    recs.filter(|rec: EntityRecord| shown_from(player, hidden, rec)).map_values(
        |rec: EntityRecord| (window_tile(player, rec.position), rec.sprite.id),
    )
}

impl Game {
    /// The window tiles of the floor tiles on screen, in floor-list order.
    pub fn visible_floor(&self) -> (r: Vec<PositionComponent>)
        requires
            self.wf(),
            forall|i: int| 0 <= i < self.floor_positions@.len() ==> in_bounds(#[trigger] self.floor_positions@[i]),
        ensures
            r@ == self.floor_positions@.map_values(
                window_from(self.ecs.get_spec(self.player_entity).unwrap().position),
            ).filter(|v: PositionComponent| on_screen(v)),
    {
        let player = self.player_position();
        let mut r: Vec<PositionComponent> = Vec::new();
        let mut i: usize = 0;
        while i < self.floor_positions.len()
            invariant
                i <= self.floor_positions@.len(),
                in_bounds(player),
                forall|j: int| 0 <= j < self.floor_positions@.len() ==> in_bounds(#[trigger] self.floor_positions@[j]),
                r@ == self.floor_positions@.subrange(0, i as int).map_values(window_from(player)).filter(
                    |v: PositionComponent| on_screen(v),
                ),
            decreases self.floor_positions@.len() - i,
        {
            let v = window_tile_exec(player, self.floor_positions[i]);
            proof {
                let s0 = self.floor_positions@.subrange(0, i as int);
                let s1 = self.floor_positions@.subrange(0, i + 1);
                assert(s1[i as int] == self.floor_positions@[i as int]);
                assert(window_from(player)(s1[i as int]) == v);
                assert forall|k: int| 0 <= k < i implies s1.map_values(window_from(player))[k] == s0.map_values(window_from(player))[k] by {
                    assert(s1[k] == s0[k]);
                }
                assert(s1.map_values(window_from(player)) =~= s0.map_values(window_from(player)).push(v));
                reveal_with_fuel(Seq::filter, 1);
                assert(s1.map_values(window_from(player)).drop_last() =~= s0.map_values(window_from(player)));
            }
            if 0 <= v.x && v.x < 15 && 0 <= v.y && v.y < 15 {
                r.push(v);
            }
            i = i + 1;
        }
        assert(self.floor_positions@.subrange(0, i as int) =~= self.floor_positions@);
        r
    }

    /// The sprites on screen with their window tiles, in table order,
    /// leaving out the entity the first queued animation hides.
    pub fn visible_sprites(&self) -> (r: Vec<(PositionComponent, &'static str)>)
        requires
            self.wf(),
        ensures
            r@ == sprites_shown(
                self.ecs.records(),
                self.ecs.get_spec(self.player_entity).unwrap().position,
                hidden_by(
                    if self.animation_queue@.len() > 0 {
                        Some(self.animation_queue@[0])
                    } else {
                        None
                    },
                ),
            ),
    {
        let player = self.player_position();
        let hidden: Option<Entity> = if self.animation_queue.len() > 0 {
            match self.animation_queue[0] {
                Animation::Damage { damaged_entity, .. } => Some(damaged_entity),
                _ => None,
            }
        } else {
            None
        };
        let n = self.ecs.len();
        let ghost recs = self.ecs.records();
        let mut r: Vec<(PositionComponent, &'static str)> = Vec::new();
        let mut i: usize = 0;
        while i < n
            invariant
                n == recs.len(),
                recs == self.ecs.records(),
                i <= n,
                self.wf(),
                in_bounds(player),
                r@ == sprites_shown(recs.subrange(0, i as int), player, hidden),
            decreases n - i,
        {
            let rec = self.ecs.record_at(i);
            assert(record_ok(recs[i as int]));
            let v = window_tile_exec(player, rec.position);
            let shown = match hidden {
                Some(h) => h != rec.entity,
                None => true,
            };
            proof {
                assert(recs.subrange(0, i + 1).drop_last() =~= recs.subrange(0, i as int));
                reveal_with_fuel(Seq::filter, 1);
            }
            if shown && 0 <= v.x && v.x < 15 && 0 <= v.y && v.y < 15 {
                r.push((v, rec.sprite.id));
            }
            proof {
                let keep = |rec: EntityRecord| shown_from(player, hidden, rec);
                let f0 = recs.subrange(0, i as int).filter(keep);
                let f1 = recs.subrange(0, i + 1).filter(keep);
                if shown_from(player, hidden, rec) {
                    assert(f1 == f0.push(rec));
                    assert(sprites_shown(recs.subrange(0, i + 1), player, hidden) =~= sprites_shown(
                        recs.subrange(0, i as int),
                        player,
                        hidden,
                    ).push((v, rec.sprite.id)));
                } else {
                    assert(f1 == f0);
                }
            }
            i = i + 1;
        }
        assert(recs.subrange(0, i as int) =~= recs);
        r
    }

    /// Whether the player is below three tenths of its maximum health (the
    /// background turns red then).
    pub fn player_health_low(&self) -> (low: bool)
        requires
            self.wf(),
        ensures
            low == (10 * combat_of(self.ecs, self.player_entity).unwrap().current_health < 3
                * combat_of(self.ecs, self.player_entity).unwrap().max_health),
    {
        let c = self.player_combat();
        10 * (c.current_health as u64) < 3 * (c.max_health as u64)
    }
}

/// The marker drawn on the player's tile for where it faces: its image and
/// its clockwise turn in degrees.
pub fn facing_marker(facing: PositionComponent) -> (m: (&'static str, u32))
    requires
        crate::game::facing_ok(facing),
    ensures
        (facing.x == 0 || facing.y == 0) ==> m.0@ == "direction_indicator"@,
        (facing.x != 0 && facing.y != 0) ==> m.0@ == "direction_indicator_diagonal"@,
        m.1 == (if facing.x == 0 && facing.y == 1 {
            90u32
        } else if facing.x == 0 && facing.y == -1 {
            270u32
        } else if facing.x == -1 && facing.y == 0 {
            0u32
        } else if facing.x == 1 && facing.y == 0 {
            180u32
        } else if facing.x == -1 && facing.y == 1 {
            0u32
        } else if facing.x == -1 && facing.y == -1 {
            270u32
        } else if facing.x == 1 && facing.y == -1 {
            180u32
        } else {
            90u32
        }),
{
    let image = if facing.x == 0 || facing.y == 0 {
        "direction_indicator"
    } else {
        "direction_indicator_diagonal"
    };
    let turn: u32 = if facing.x == 0 && facing.y == 1 {
        90
    } else if facing.x == 0 && facing.y == -1 {
        270
    } else if facing.x == -1 && facing.y == 0 {
        0
    } else if facing.x == 1 && facing.y == 0 {
        180
    } else if facing.x == -1 && facing.y == 1 {
        0
    } else if facing.x == -1 && facing.y == -1 {
        270
    } else if facing.x == 1 && facing.y == -1 {
        180
    } else {
        90
    };
    (image, turn)
}

/// How long an animation plays, in milliseconds: a second for the floor
/// banner, 400 for the others.
pub fn animation_length_ms(a: &Animation) -> (ms: u64)
    ensures
        ms == (if a is NextFloor {
            1000u64
        } else {
            400u64
        }),
{
    match a {
        Animation::NextFloor { .. } => 1000,
        _ => 400,
    }
}

/// A damage animation `elapsed` milliseconds in: the opacity of the hit
/// sprite (it blinks: 127 in the first and third hundred milliseconds, 255
/// in the others), and the frame of the critical-hit burst (six frames over
/// 400 milliseconds).
pub fn damage_frame(elapsed_ms: u64) -> (r: (u8, u32))
    ensures
        ({
            let t = if elapsed_ms < 400 {
                elapsed_ms as int
            } else {
                400
            };
            &&& r.0 == (if (t / 100) % 2 == 0 {
                127u8
            } else {
                255u8
            })
            &&& r.1 == t * 6 / 400
        }),
{
    let t = if elapsed_ms < 400 {
        elapsed_ms
    } else {
        400
    };
    let opacity: u8 = if (t / 100) % 2 == 0 {
        127
    } else {
        255
    };
    (opacity, (t * 6 / 400) as u32)
}

/// The opacity of the floor banner `elapsed` milliseconds in: opaque for
/// 400 milliseconds, then fading to 1 at one second.
pub fn next_floor_opacity(elapsed_ms: u64) -> (o: u8)
    ensures
        ({
            let t = if elapsed_ms < 1000 {
                elapsed_ms as int
            } else {
                1000
            };
            let faded = ((1000 - t) * 255 + 500) / 1000;
            o == if t <= 400 {
                255
            } else if faded < 1 {
                1
            } else {
                faded
            }
        }),
{
    let t = if elapsed_ms < 1000 {
        elapsed_ms
    } else {
        1000
    };
    if t <= 400 {
        255
    } else {
        let faded = ((1000 - t) * 255 + 500) / 1000;
        if faded < 1 {
            1
        } else {
            faded as u8
        }
    }
}

} // verus!
