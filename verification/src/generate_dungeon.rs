//! Floor layout: rectangular rooms, L-shaped corridors between them, the floor
//! tiles they make up and the walls that enclose that floor.

use crate::components::PositionComponent;
use crate::rng::{gen_range_i32, gen_range_u32, gen_range_usize};
use crate::tiles::TileSet;
use rand_pcg::Pcg64;
use vstd::prelude::*;

verus! {

/// A rectangular room: every tile within `x_radius` columns and `y_radius`
/// rows of the center is floor.
#[derive(Debug, Copy, Clone, Hash, PartialEq, Eq, Structural)]
pub struct Room {
    pub center: PositionComponent,
    pub x_radius: u32,
    pub y_radius: u32,
}

/// The room every floor starts in, around the origin.
pub open spec fn starting_room() -> Room {
    Room { center: PositionComponent { x: 0, y: 0 }, x_radius: 3, y_radius: 3 }
}

/// The ranges rooms are drawn from: center within 30 tiles of the origin on
/// both axes, radii from 2 to 7.
pub open spec fn room_in_bounds(r: Room) -> bool {
    &&& -30 <= r.center.x <= 30
    &&& -30 <= r.center.y <= 30
    &&& 2 <= r.x_radius <= 7
    &&& 2 <= r.y_radius <= 7
}

/// The number of tiles between the walls of two rooms, along the axis where
/// they are furthest apart.
pub open spec fn room_gap(a: Room, b: Room) -> int {
    let x_gap = crate::components::abs(a.center.x - b.center.x) - a.x_radius - b.x_radius - 3;
    let y_gap = crate::components::abs(a.center.y - b.center.y) - a.y_radius - b.y_radius - 3;
    if x_gap < y_gap {
        y_gap
    } else {
        x_gap
    }
}

/// Two rooms are at least `min_gap` tiles apart, or their walls coincide
/// exactly.
pub open spec fn rooms_separated_by(a: Room, b: Room, min_gap: int) -> bool {
    room_gap(a, b) >= min_gap || room_gap(a, b) == -1
}

/// Two rooms are at least three tiles apart, or their walls coincide exactly.
pub open spec fn rooms_separated(a: Room, b: Room) -> bool {
    rooms_separated_by(a, b, 3)
}

/// The starting room first, at most 200 more rooms, all within the drawing
/// ranges.
pub open spec fn rooms_drawn(rooms: Seq<Room>) -> bool {
    &&& 1 <= rooms.len() <= 201
    &&& rooms[0] == starting_room()
    &&& forall|i: int| 0 <= i < rooms.len() ==> room_in_bounds(#[trigger] rooms[i])
}

/// Rooms as `rooms_drawn`, pairwise at least `min_gap` apart (or with
/// coinciding walls).
pub open spec fn rooms_spread(rooms: Seq<Room>, min_gap: int) -> bool {
    &&& rooms_drawn(rooms)
    &&& forall|i: int, j: int|
        0 <= i < j < rooms.len() ==> rooms_separated_by(#[trigger] rooms[i], #[trigger] rooms[j], min_gap)
}

/// What room placement guarantees: the starting room first, at most 200
/// more rooms, all within bounds and pairwise separated.
pub open spec fn valid_room_layout(rooms: Seq<Room>) -> bool {
    &&& 1 <= rooms.len() <= 201
    &&& rooms[0] == starting_room()
    &&& forall|i: int| 0 <= i < rooms.len() ==> room_in_bounds(#[trigger] rooms[i])
    &&& forall|i: int, j: int|
        0 <= i < j < rooms.len() ==> rooms_separated(#[trigger] rooms[i], #[trigger] rooms[j])
}

fn room_gap_exec(a: Room, b: Room) -> (r: i32)
    requires
        room_in_bounds(a),
        room_in_bounds(b),
    ensures
        r == room_gap(a, b),
{
    let dx = a.center.x - b.center.x;
    let dy = a.center.y - b.center.y;
    let adx = if dx < 0 {
        -dx
    } else {
        dx
    };
    let ady = if dy < 0 {
        -dy
    } else {
        dy
    };
    let x_gap = adx - a.x_radius as i32 - b.x_radius as i32 - 3;
    let y_gap = ady - a.y_radius as i32 - b.y_radius as i32 - 3;
    if x_gap < y_gap {
        y_gap
    } else {
        x_gap
    }
}

/// Places the starting room, then tries 200 random rooms; each one is kept
/// when, for every room already placed, a freshly drawn required gap between
/// 3 and 9 is met (or the walls coincide).
pub fn place_rooms(rng: &mut Pcg64) -> (rooms: Vec<Room>)
    ensures
        valid_room_layout(rooms@),
{
    let rooms = place_rooms_with_gaps(rng, 3, 10);
    proof {
        assert forall|i: int, j: int| 0 <= i < j < rooms@.len() implies rooms_separated(
            #[trigger] rooms@[i],
            #[trigger] rooms@[j],
        ) by {
            assert(rooms_separated_by(rooms@[i], rooms@[j], 3));
        }
    }
    rooms
}

/// Places the starting room, then tries 200 random rooms (center within 30
/// tiles of the origin, radii 2 to 7); each one is kept when, for every
/// room already placed, a freshly drawn required gap in
/// `min_gap .. gap_limit` is met (or the walls coincide).
pub fn place_rooms_with_gaps(rng: &mut Pcg64, min_gap: i32, gap_limit: i32) -> (rooms: Vec<Room>)
    requires
        1 <= min_gap < gap_limit <= 10,
    ensures
        rooms_spread(rooms@, min_gap as int),
{
    let mut rooms: Vec<Room> = Vec::new();
    rooms.push(Room { center: PositionComponent { x: 0, y: 0 }, x_radius: 3, y_radius: 3 });
    let mut attempt: u32 = 0;
    while attempt < 200
        invariant
            attempt <= 200,
            1 <= rooms@.len() <= attempt + 1,
            1 <= min_gap < gap_limit <= 10,
            rooms_spread(rooms@, min_gap as int),
        decreases 200 - attempt,
    {
        let cx = gen_range_i32(rng, -30, 31);
        let cy = gen_range_i32(rng, -30, 31);
        let rx = gen_range_u32(rng, 2, 8);
        let ry = gen_range_u32(rng, 2, 8);
        let room = Room { center: PositionComponent { x: cx, y: cy }, x_radius: rx, y_radius: ry };
        let mut fits = true;
        let mut j: usize = 0;
        while fits && j < rooms.len()
            invariant
                rooms_spread(rooms@, min_gap as int),
                1 <= min_gap < gap_limit <= 10,
                room_in_bounds(room),
                j <= rooms@.len(),
                fits ==> forall|k: int| 0 <= k < j ==> rooms_separated_by(#[trigger] rooms@[k], room, min_gap as int),
            decreases rooms@.len() - j + (if fits { 1int } else { 0int }),
        {
            let required_gap = gen_range_i32(rng, min_gap, gap_limit);
            let actual_gap = room_gap_exec(room, rooms[j]);
            if actual_gap < required_gap && actual_gap != -1 {
                fits = false;
            } else {
                assert(room_gap(rooms@[j as int], room) == room_gap(room, rooms@[j as int]));
                j = j + 1;
            }
        }
        if fits {
            let ghost before = rooms@;
            rooms.push(room);
            assert forall|i: int, k: int| 0 <= i < k < rooms@.len() implies rooms_separated_by(
                #[trigger] rooms@[i],
                #[trigger] rooms@[k],
                min_gap as int,
            ) by {
                if k < before.len() {
                    assert(rooms@[i] == before[i] && rooms@[k] == before[k]);
                } else {
                    assert(rooms@[i] == before[i]);
                }
            }
            assert(rooms@[0] == before[0]);
        }
        attempt = attempt + 1;
    }
    rooms
}


/// A corridor dug from a tile of room `start_room` to a tile of room `end_room`:
/// first along the row of `start`, then along the column of `end`.
#[derive(Debug, Copy, Clone, Hash, PartialEq, Eq, Structural)]
pub struct Corridor {
    pub start_room: usize,
    pub end_room: usize,
    pub start: PositionComponent,
    pub end: PositionComponent,
}

/// `p` lies within the room's rectangle.
pub open spec fn in_interior(r: Room, p: PositionComponent) -> bool {
    &&& crate::components::abs(p.x - r.center.x) <= r.x_radius
    &&& crate::components::abs(p.y - r.center.y) <= r.y_radius
}

/// `p` lies within the room's rectangle grown by one tile on every side.
pub open spec fn in_box(r: Room, p: PositionComponent) -> bool {
    &&& crate::components::abs(p.x - r.center.x) <= r.x_radius + 1
    &&& crate::components::abs(p.y - r.center.y) <= r.y_radius + 1
}

/// `p` is on the ring of tiles just outside the room.
pub open spec fn on_border(r: Room, p: PositionComponent) -> bool {
    in_box(r, p) && !in_interior(r, p)
}

pub open spec fn min_int(a: int, b: int) -> int {
    if a < b {
        a
    } else {
        b
    }
}

pub open spec fn max_int(a: int, b: int) -> int {
    if a < b {
        b
    } else {
        a
    }
}

/// The tiles a corridor digs: the row of `start` from the smaller to (not
/// including) the larger x, and the whole column of `end` between both rows.
pub open spec fn corridor_tile(c: Corridor, p: PositionComponent) -> bool {
    ||| (p.y == c.start.y && min_int(c.start.x as int, c.end.x as int) <= p.x && p.x < max_int(
        c.start.x as int,
        c.end.x as int,
    ))
    ||| (p.x == c.end.x && min_int(c.start.y as int, c.end.y as int) <= p.y && p.y <= max_int(
        c.start.y as int,
        c.end.y as int,
    ))
}

/// `p` is dug by one of the first `n` corridors.
pub open spec fn on_corridors(cs: Seq<Corridor>, n: int, p: PositionComponent) -> bool
    decreases n,
{
    if n <= 0 {
        false
    } else {
        on_corridors(cs, n - 1, p) || corridor_tile(cs[n - 1], p)
    }
}

/// `p` is inside one of the first `n` rooms.
pub open spec fn in_interiors(rooms: Seq<Room>, n: int, p: PositionComponent) -> bool
    decreases n,
{
    if n <= 0 {
        false
    } else {
        in_interiors(rooms, n - 1, p) || in_interior(rooms[n - 1], p)
    }
}

/// `p` is in the grown rectangle of one of the first `n` rooms.
pub open spec fn in_boxes(rooms: Seq<Room>, n: int, p: PositionComponent) -> bool
    decreases n,
{
    if n <= 0 {
        false
    } else {
        in_boxes(rooms, n - 1, p) || in_box(rooms[n - 1], p)
    }
}

/// `p` is on the border ring of one of the first `n` rooms.
pub open spec fn on_borders(rooms: Seq<Room>, n: int, p: PositionComponent) -> bool
    decreases n,
{
    if n <= 0 {
        false
    } else {
        on_borders(rooms, n - 1, p) || on_border(rooms[n - 1], p)
    }
}

/// Floor: every corridor tile and every room tile.
pub open spec fn is_floor(rooms: Seq<Room>, cs: Seq<Corridor>, p: PositionComponent) -> bool {
    on_corridors(cs, cs.len() as int, p) || in_interiors(rooms, rooms.len() as int, p)
}

/// `p` touches (sides or corners) a corridor tile.
pub open spec fn near_corridor(cs: Seq<Corridor>, p: PositionComponent) -> bool {
    exists|f: PositionComponent|
        #![trigger on_corridors(cs, cs.len() as int, f), crate::components::is_adjacent8(f, p)]
        on_corridors(cs, cs.len() as int, f) && crate::components::is_adjacent8(f, p)
}

/// Wall: a tile that is not floor and either rings a room or touches a
/// corridor tile away from every room's grown rectangle.
pub open spec fn is_wall(rooms: Seq<Room>, cs: Seq<Corridor>, p: PositionComponent) -> bool {
    &&& !is_floor(rooms, cs, p)
    &&& (on_borders(rooms, rooms.len() as int, p) || (near_corridor(cs, p) && !in_boxes(
        rooms,
        rooms.len() as int,
        p,
    )))
}

pub proof fn lemma_in_boxes_witness(rooms: Seq<Room>, n: int, p: PositionComponent)
    requires
        0 <= n <= rooms.len(),
    ensures
        in_boxes(rooms, n, p) <==> exists|k: int| 0 <= k < n && #[trigger] in_box(rooms[k], p),
    decreases n,
{
    if n > 0 {
        lemma_in_boxes_witness(rooms, n - 1, p);
        if in_box(rooms[n - 1], p) {
            assert(0 <= n - 1 < n && in_box(rooms[n - 1], p));
        }
    }
}

pub proof fn lemma_in_interiors_witness(rooms: Seq<Room>, n: int, p: PositionComponent)
    requires
        0 <= n <= rooms.len(),
    ensures
        in_interiors(rooms, n, p) <==> exists|k: int|
            0 <= k < n && #[trigger] in_interior(rooms[k], p),
    decreases n,
{
    if n > 0 {
        lemma_in_interiors_witness(rooms, n - 1, p);
        if in_interior(rooms[n - 1], p) {
            assert(0 <= n - 1 < n && in_interior(rooms[n - 1], p));
        }
    }
}

pub proof fn lemma_on_borders_witness(rooms: Seq<Room>, n: int, p: PositionComponent)
    requires
        0 <= n <= rooms.len(),
    ensures
        on_borders(rooms, n, p) <==> exists|k: int| 0 <= k < n && #[trigger] on_border(rooms[k], p),
    decreases n,
{
    if n > 0 {
        lemma_on_borders_witness(rooms, n - 1, p);
        if on_border(rooms[n - 1], p) {
            assert(0 <= n - 1 < n && on_border(rooms[n - 1], p));
        }
    }
}

/// The floor is closed: each of the eight tiles around a floor tile is
/// either floor or wall, so no walk over floor tiles leaves the dungeon.
pub proof fn lemma_floor_enclosed(
    rooms: Seq<Room>,
    cs: Seq<Corridor>,
    f: PositionComponent,
    n: PositionComponent,
)
    requires
        is_floor(rooms, cs, f),
        crate::components::is_adjacent8(f, n),
    ensures
        is_floor(rooms, cs, n) || is_wall(rooms, cs, n),
{
    let len = rooms.len() as int;
    if !is_floor(rooms, cs, n) {
        lemma_in_boxes_witness(rooms, len, n);
        lemma_in_interiors_witness(rooms, len, n);
        lemma_in_interiors_witness(rooms, len, f);
        lemma_on_borders_witness(rooms, len, n);
        if in_boxes(rooms, len, n) {
            let k = choose|k: int| 0 <= k < len && #[trigger] in_box(rooms[k], n);
            assert(!in_interior(rooms[k], n));
            assert(on_border(rooms[k], n));
        } else if on_corridors(cs, cs.len() as int, f) {
            assert(near_corridor(cs, n));
        } else {
            let k = choose|k: int| 0 <= k < len && #[trigger] in_interior(rooms[k], f);
            assert(in_box(rooms[k], n));
        }
    }
}


/// Corridor `c` is the one dug from room `i`: it starts inside room `i` and
/// ends inside another room.
pub open spec fn corridor_valid(rooms: Seq<Room>, c: Corridor, i: int) -> bool {
    &&& c.start_room == i
    &&& c.end_room < rooms.len()
    &&& c.end_room != i
    &&& in_interior(rooms[i], c.start)
    &&& in_interior(rooms[c.end_room as int], c.end)
}

/// One corridor per room, the `i`-th leaving room `i`; none when there is a
/// single room.
pub open spec fn valid_corridors(rooms: Seq<Room>, cs: Seq<Corridor>) -> bool {
    &&& rooms.len() >= 2 ==> cs.len() == rooms.len()
    &&& rooms.len() < 2 ==> cs.len() == 0
    &&& forall|i: int| 0 <= i < cs.len() ==> corridor_valid(rooms, #[trigger] cs[i], i)
}

/// Every corridor runs from a tile of one room to a tile of a room (the
/// same one or another).
pub open spec fn corridors_drawn(rooms: Seq<Room>, cs: Seq<Corridor>) -> bool {
    forall|i: int|
        0 <= i < cs.len() ==> {
            let c = #[trigger] cs[i];
            &&& c.start_room < rooms.len()
            &&& c.end_room < rooms.len()
            &&& in_interior(rooms[c.start_room as int], c.start)
            &&& in_interior(rooms[c.end_room as int], c.end)
        }
}

/// Valid rooms and corridors are drawn ones.
pub proof fn lemma_valid_is_drawn(rooms: Seq<Room>, cs: Seq<Corridor>)
    requires
        valid_room_layout(rooms),
        valid_corridors(rooms, cs),
    ensures
        rooms_drawn(rooms),
        corridors_drawn(rooms, cs),
{
    assert forall|i: int| 0 <= i < cs.len() implies {
        let c = #[trigger] cs[i];
        &&& c.start_room < rooms.len()
        &&& c.end_room < rooms.len()
        &&& in_interior(rooms[c.start_room as int], c.start)
        &&& in_interior(rooms[c.end_room as int], c.end)
    } by {
        assert(corridor_valid(rooms, cs[i], i));
    }
}

/// A random tile inside the room: x first, then y.
pub fn random_point_in(room: Room, rng: &mut Pcg64) -> (p: PositionComponent)
    requires
        room_in_bounds(room),
    ensures
        in_interior(room, p),
{
    let x = gen_range_i32(
        rng,
        room.center.x - room.x_radius as i32,
        room.center.x + room.x_radius as i32 + 1,
    );
    let y = gen_range_i32(
        rng,
        room.center.y - room.y_radius as i32,
        room.center.y + room.y_radius as i32 + 1,
    );
    PositionComponent { x, y }
}

/// For every room, draws another room (redrawing while it is the same one,
/// up to the largest `u64` number of times, after which the next room is
/// taken) and a random tile in each; these are the corridor's ends.
pub fn dig_corridors(rooms: &Vec<Room>, rng: &mut Pcg64) -> (cs: Vec<Corridor>)
    requires
        valid_room_layout(rooms@),
    ensures
        valid_corridors(rooms@, cs@),
{
    let n = rooms.len();
    let mut cs: Vec<Corridor> = Vec::new();
    if n < 2 {
        return cs;
    }
    let mut i: usize = 0;
    while i < n
        invariant
            n == rooms@.len(),
            n >= 2,
            valid_room_layout(rooms@),
            i <= n,
            cs@.len() == i,
            forall|k: int| 0 <= k < i ==> corridor_valid(rooms@, #[trigger] cs@[k], k),
        decreases n - i,
    {
        let mut end_room = gen_range_usize(rng, 0, n);
        let mut redraws: u64 = 0;
        while end_room == i && redraws < u64::MAX
            invariant
                end_room < n,
            decreases u64::MAX - redraws,
        {
            end_room = gen_range_usize(rng, 0, n);
            redraws = redraws + 1;
        }
        if end_room == i {
            end_room = if i + 1 < n {
                i + 1
            } else {
                0
            };
        }
        let start = random_point_in(rooms[i], rng);
        let end = random_point_in(rooms[end_room], rng);
        cs.push(Corridor { start_room: i, end_room, start, end });
        i = i + 1;
    }
    cs
}

/// For every room, draws a room (possibly the same one) and a random tile
/// in each; these are the corridor's ends.
pub fn dig_corridors_anywhere(rooms: &Vec<Room>, rng: &mut Pcg64) -> (cs: Vec<Corridor>)
    requires
        rooms_drawn(rooms@),
    ensures
        corridors_drawn(rooms@, cs@),
        cs@.len() == rooms@.len(),
        forall|i: int| 0 <= i < cs@.len() ==> #[trigger] cs@[i].start_room == i,
{
    let n = rooms.len();
    let mut cs: Vec<Corridor> = Vec::new();
    let mut i: usize = 0;
    while i < n
        invariant
            n == rooms@.len(),
            rooms_drawn(rooms@),
            i <= n,
            cs@.len() == i,
            corridors_drawn(rooms@, cs@),
            forall|k: int| 0 <= k < i ==> #[trigger] cs@[k].start_room == k,
        decreases n - i,
    {
        let end_room = gen_range_usize(rng, 0, n);
        assert(room_in_bounds(rooms@[i as int]));
        assert(room_in_bounds(rooms@[end_room as int]));
        let start = random_point_in(rooms[i], rng);
        let end = random_point_in(rooms[end_room], rng);
        cs.push(Corridor { start_room: i, end_room, start, end });
        i = i + 1;
    }
    cs
}

/// What the queued-order rules wall in: the rings around the rooms and the
/// tiles touching a corridor away from every room's grown rectangle, but
/// not the corridors themselves.
pub open spec fn carved_wall(rooms: Seq<Room>, cs: Seq<Corridor>, p: PositionComponent) -> bool {
    &&& on_borders(rooms, rooms.len() as int, p) || (near_corridor(cs, p) && !in_boxes(rooms, rooms.len() as int, p))
    &&& !on_corridors(cs, cs.len() as int, p)
}

/// Rooms at least one tile apart (or with coinciding walls) never have a
/// ring tile inside a room, so their carved walls are their walls.
pub proof fn lemma_carved_walls(rooms: Seq<Room>, cs: Seq<Corridor>, p: PositionComponent)
    requires
        rooms_spread(rooms, 1),
    ensures
        carved_wall(rooms, cs, p) <==> is_wall(rooms, cs, p),
{
    let len = rooms.len() as int;
    if carved_wall(rooms, cs, p) && in_interiors(rooms, len, p) {
        lemma_in_interiors_witness(rooms, len, p);
        let b = choose|b: int| 0 <= b < len && #[trigger] in_interior(rooms[b], p);
        if on_borders(rooms, len, p) {
            lemma_on_borders_witness(rooms, len, p);
            let a = choose|a: int| 0 <= a < len && #[trigger] on_border(rooms[a], p);
            if a < b {
                assert(rooms_separated_by(rooms[a], rooms[b], 1));
            } else if b < a {
                assert(rooms_separated_by(rooms[b], rooms[a], 1));
            }
        } else {
            lemma_in_boxes_witness(rooms, len, p);
            assert(in_box(rooms[b], p));
        }
    }
}

/// Small coordinates: no arithmetic near them overflows.
pub open spec fn small(p: PositionComponent) -> bool {
    -100000 <= p.x <= 100000 && -100000 <= p.y <= 100000
}

pub open spec fn small_room(r: Room) -> bool {
    small(r.center) && r.x_radius <= 100000 && r.y_radius <= 100000
}

/// Adds the tiles of one corridor to `set`.
fn dig(set: &mut TileSet, c: Corridor)
    requires
        old(set).wf(),
        small(c.start),
        small(c.end),
    ensures
        final(set).wf(),
        forall|p: PositionComponent| #[trigger]
            final(set)@.contains(p) <==> (old(set)@.contains(p) || corridor_tile(c, p)),
{
    let lo_x = if c.start.x < c.end.x {
        c.start.x
    } else {
        c.end.x
    };
    let hi_x = if c.start.x < c.end.x {
        c.end.x
    } else {
        c.start.x
    };
    let mut x = lo_x;
    while x < hi_x
        invariant
            set.wf(),
            lo_x <= x <= hi_x,
            lo_x == min_int(c.start.x as int, c.end.x as int),
            hi_x == max_int(c.start.x as int, c.end.x as int),
            forall|p: PositionComponent| #[trigger]
                set@.contains(p) <==> (old(set)@.contains(p) || (p.y == c.start.y && lo_x <= p.x
                    < x)),
        decreases hi_x - x,
    {
        set.insert(PositionComponent { x, y: c.start.y });
        x = x + 1;
    }
    let ghost after_row = set@;
    let lo_y = if c.start.y < c.end.y {
        c.start.y
    } else {
        c.end.y
    };
    let hi_y = if c.start.y < c.end.y {
        c.end.y
    } else {
        c.start.y
    };
    let mut y = lo_y;
    while y <= hi_y
        invariant
            set.wf(),
            lo_y <= y <= hi_y + 1,
            hi_y <= 100000,
            lo_y == min_int(c.start.y as int, c.end.y as int),
            hi_y == max_int(c.start.y as int, c.end.y as int),
            forall|p: PositionComponent| #[trigger]
                set@.contains(p) <==> (after_row.contains(p) || (p.x == c.end.x && lo_y <= p.y
                    < y)),
        decreases hi_y + 1 - y,
    {
        set.insert(PositionComponent { x: c.end.x, y });
        y = y + 1;
    }
}

/// Adds every tile of the room's rectangle to `set`.
fn add_interior(set: &mut TileSet, r: Room)
    requires
        old(set).wf(),
        small_room(r),
    ensures
        final(set).wf(),
        forall|p: PositionComponent| #[trigger]
            final(set)@.contains(p) <==> (old(set)@.contains(p) || in_interior(r, p)),
{
    let xr = r.x_radius as i32;
    let yr = r.y_radius as i32;
    let mut dx: i32 = -xr;
    while dx <= xr
        invariant
            set.wf(),
            small_room(r),
            xr == r.x_radius,
            yr == r.y_radius,
            -xr <= dx <= xr + 1,
            forall|p: PositionComponent| #[trigger]
                set@.contains(p) <==> (old(set)@.contains(p) || (in_interior(r, p) && p.x
                    - r.center.x < dx)),
        decreases xr + 1 - dx,
    {
        let ghost before = set@;
        let mut dy: i32 = -yr;
        while dy <= yr
            invariant
                set.wf(),
                small_room(r),
                xr == r.x_radius,
                yr == r.y_radius,
                -xr <= dx <= xr,
                -yr <= dy <= yr + 1,
                forall|p: PositionComponent| #[trigger]
                    set@.contains(p) <==> (before.contains(p) || (p.x - r.center.x == dx
                        && -yr <= p.y - r.center.y < dy)),
            decreases yr + 1 - dy,
        {
            set.insert(PositionComponent { x: r.center.x + dx, y: r.center.y + dy });
            dy = dy + 1;
        }
        dx = dx + 1;
    }
}

/// Adds the ring of tiles just outside the room to `set`.
fn add_border(set: &mut TileSet, r: Room)
    requires
        old(set).wf(),
        small_room(r),
    ensures
        final(set).wf(),
        forall|p: PositionComponent| #[trigger]
            final(set)@.contains(p) <==> (old(set)@.contains(p) || on_border(r, p)),
{
    let xr = r.x_radius as i32;
    let yr = r.y_radius as i32;
    let mut dx: i32 = -(xr + 1);
    while dx <= xr + 1
        invariant
            set.wf(),
            small_room(r),
            xr == r.x_radius,
            yr == r.y_radius,
            -(xr + 1) <= dx <= xr + 2,
            forall|p: PositionComponent| #[trigger]
                set@.contains(p) <==> (old(set)@.contains(p) || (-(xr + 1) <= p.x - r.center.x
                    < dx && crate::components::abs(p.y - r.center.y) == yr + 1)),
        decreases xr + 2 - dx,
    {
        set.insert(PositionComponent { x: r.center.x + dx, y: r.center.y + yr + 1 });
        set.insert(PositionComponent { x: r.center.x + dx, y: r.center.y - yr - 1 });
        dx = dx + 1;
    }
    let ghost rows = set@;
    let mut dy: i32 = -yr;
    while dy <= yr
        invariant
            set.wf(),
            small_room(r),
            xr == r.x_radius,
            yr == r.y_radius,
            -yr <= dy <= yr + 1,
            forall|p: PositionComponent| #[trigger]
                set@.contains(p) <==> (rows.contains(p) || (-yr <= p.y - r.center.y < dy
                    && crate::components::abs(p.x - r.center.x) == xr + 1)),
        decreases yr + 1 - dy,
    {
        set.insert(PositionComponent { x: r.center.x + xr + 1, y: r.center.y + dy });
        set.insert(PositionComponent { x: r.center.x - xr - 1, y: r.center.y + dy });
        dy = dy + 1;
    }
}

/// Whether `p` is in the grown rectangle of any room.
fn in_any_box(rooms: &Vec<Room>, p: PositionComponent) -> (r: bool)
    requires
        forall|k: int| 0 <= k < rooms@.len() ==> small_room(#[trigger] rooms@[k]),
        small(p),
    ensures
        r == in_boxes(rooms@, rooms@.len() as int, p),
{
    let mut k: usize = 0;
    let mut found = false;
    while k < rooms.len()
        invariant
            k <= rooms@.len(),
            forall|j: int| 0 <= j < rooms@.len() ==> small_room(#[trigger] rooms@[j]),
            small(p),
            found == in_boxes(rooms@, k as int, p),
        decreases rooms@.len() - k,
    {
        let room = rooms[k];
        let dx = p.x - room.center.x;
        let dy = p.y - room.center.y;
        let adx = if dx < 0 {
            -dx
        } else {
            dx
        };
        let ady = if dy < 0 {
            -dy
        } else {
            dy
        };
        if adx <= room.x_radius as i32 + 1 && ady <= room.y_radius as i32 + 1 {
            found = true;
        }
        k = k + 1;
    }
    found
}


proof fn lemma_borders_small(rooms: Seq<Room>, n: int, p: PositionComponent)
    requires
        rooms_drawn(rooms),
        0 <= n <= rooms.len(),
        on_borders(rooms, n, p),
    ensures
        -41 <= p.x <= 41,
        -41 <= p.y <= 41,
    decreases n,
{
    if on_borders(rooms, n - 1, p) {
        lemma_borders_small(rooms, n - 1, p);
    } else {
        assert(room_in_bounds(rooms[n - 1]));
    }
}

/// Every wall tile of drawn rooms and corridors lies within 41 tiles of
/// the origin on both axes.
pub proof fn lemma_wall_small(rooms: Seq<Room>, cs: Seq<Corridor>, p: PositionComponent)
    requires
        rooms_drawn(rooms),
        corridors_drawn(rooms, cs),
        is_wall(rooms, cs, p),
    ensures
        -41 <= p.x <= 41,
        -41 <= p.y <= 41,
{
    if on_borders(rooms, rooms.len() as int, p) {
        lemma_borders_small(rooms, rooms.len() as int, p);
    } else {
        let f = choose|f: PositionComponent|
            #![trigger on_corridors(cs, cs.len() as int, f), crate::components::is_adjacent8(f, p)]
            on_corridors(cs, cs.len() as int, f) && crate::components::is_adjacent8(f, p);
        lemma_corridor_tiles_small(rooms, cs, cs.len() as int, f);
    }
}

pub proof fn lemma_corridor_tiles_small(rooms: Seq<Room>, cs: Seq<Corridor>, n: int, p: PositionComponent)
    requires
        rooms_drawn(rooms),
        corridors_drawn(rooms, cs),
        0 <= n <= cs.len(),
        on_corridors(cs, n, p),
    ensures
        -40 <= p.x <= 40,
        -40 <= p.y <= 40,
    decreases n,
{
    if on_corridors(cs, n - 1, p) {
        lemma_corridor_tiles_small(rooms, cs, n - 1, p);
    } else {
        let c = cs[n - 1];
        assert(c.start_room < rooms.len());
        assert(room_in_bounds(rooms[c.start_room as int]));
        assert(room_in_bounds(rooms[c.end_room as int]));
    }
}

/// The floor tiles and the wall tiles of a floor, each listed once.
pub fn floor_and_walls(rooms: &Vec<Room>, cs: &Vec<Corridor>) -> (r: (
    Vec<PositionComponent>,
    Vec<PositionComponent>,
))
    requires
        rooms_drawn(rooms@),
        corridors_drawn(rooms@, cs@),
    ensures
        r.0@.no_duplicates(),
        r.1@.no_duplicates(),
        forall|p: PositionComponent| #[trigger] r.0@.contains(p) <==> is_floor(rooms@, cs@, p),
        forall|p: PositionComponent| #[trigger] r.1@.contains(p) <==> is_wall(rooms@, cs@, p),
{
    let ghost rs = rooms@;
    let ghost css = cs@;
    let nr = rooms.len();
    let nc = cs.len();
    let mut floor = TileSet::new();
    let mut i: usize = 0;
    while i < nc
        invariant
            nc == css.len(),
            css == cs@,
            rs == rooms@,
            rooms_drawn(rs),
            corridors_drawn(rs, css),
            i <= nc,
            floor.wf(),
            forall|p: PositionComponent| #[trigger]
                floor@.contains(p) <==> on_corridors(css, i as int, p),
        decreases nc - i,
    {
        let c = cs[i];
        assert(c.start_room < rs.len());
        assert(room_in_bounds(rs[c.start_room as int]));
        assert(room_in_bounds(rs[c.end_room as int]));
        dig(&mut floor, c);
        i = i + 1;
    }
    let corridor_tiles = floor.to_vec();
    proof {
        floor.lemma_list_view();
        assert forall|p: PositionComponent| #[trigger]
            corridor_tiles@.contains(p) <==> on_corridors(css, nc as int, p) by {
            assert(floor@.contains(p) <==> floor.list().contains(p));
        }
    }
    assert forall|k: int| 0 <= k < rs.len() implies small_room(#[trigger] rs[k]) by {
        assert(room_in_bounds(rs[k]));
    }
    let mut candidates = TileSet::new();
    let mut k: usize = 0;
    while k < nr
        invariant
            nr == rs.len(),
            rs == rooms@,
            forall|j: int| 0 <= j < rs.len() ==> small_room(#[trigger] rs[j]),
            k <= nr,
            candidates.wf(),
            forall|p: PositionComponent| #[trigger]
                candidates@.contains(p) <==> on_borders(rs, k as int, p),
        decreases nr - k,
    {
        add_border(&mut candidates, rooms[k]);
        k = k + 1;
    }
    let nt = corridor_tiles.len();
    let mut t: usize = 0;
    while t < nt
        invariant
            nt == corridor_tiles@.len(),
            rs == rooms@,
            css == cs@,
            rooms_drawn(rs),
            corridors_drawn(rs, css),
            forall|j: int| 0 <= j < rs.len() ==> small_room(#[trigger] rs[j]),
            forall|p: PositionComponent| #[trigger]
                corridor_tiles@.contains(p) <==> on_corridors(css, nc as int, p),
            nc == css.len(),
            t <= nt,
            candidates.wf(),
            forall|p: PositionComponent| #[trigger]
                candidates@.contains(p) <==> (on_borders(rs, nr as int, p) || (!in_boxes(
                    rs,
                    nr as int,
                    p,
                ) && exists|q: int|
                    0 <= q < t && crate::components::is_adjacent8(
                        #[trigger] corridor_tiles@[q],
                        p,
                    ))),
            nr == rs.len(),
        decreases nt - t,
    {
        let f = corridor_tiles[t];
        assert(corridor_tiles@.contains(f));
        proof {
            lemma_corridor_tiles_small(rs, css, nc as int, f);
            crate::components::lemma_neighbor_seq_adjacent(f);
        }
        let ns = f.neighbors();
        let ghost before = candidates@;
        let mut j: usize = 0;
        while j < 8
            invariant
                rs == rooms@,
                nr == rs.len(),
                forall|jj: int| 0 <= jj < rs.len() ==> small_room(#[trigger] rs[jj]),
                ns@ == crate::components::neighbor_seq(f),
                -40 <= f.x <= 40,
                -40 <= f.y <= 40,
                j <= 8,
                candidates.wf(),
                forall|p: PositionComponent| #[trigger]
                    candidates@.contains(p) <==> (before.contains(p) || (!in_boxes(
                        rs,
                        nr as int,
                        p,
                    ) && exists|q: int| 0 <= q < j && #[trigger] ns@[q] == p)),
            decreases 8 - j,
        {
            let nb = ns[j];
            if !in_any_box(rooms, nb) {
                candidates.insert(nb);
            }
            proof {
                assert forall|p: PositionComponent| #[trigger]
                    candidates@.contains(p) <==> (before.contains(p) || (!in_boxes(
                        rs,
                        nr as int,
                        p,
                    ) && exists|q: int| 0 <= q < j + 1 && #[trigger] ns@[q] == p)) by {
                    if p == nb {
                        assert(ns@[j as int] == p);
                    }
                    if exists|q: int| 0 <= q < j + 1 && #[trigger] ns@[q] == p {
                        let q = choose|q: int| 0 <= q < j + 1 && #[trigger] ns@[q] == p;
                        if q < j {
                            assert(exists|q2: int| 0 <= q2 < j && #[trigger] ns@[q2] == p);
                        }
                    }
                }
            }
            j = j + 1;
        }
        proof {
            assert forall|p: PositionComponent| #[trigger]
                candidates@.contains(p) <==> (on_borders(rs, nr as int, p) || (!in_boxes(
                    rs,
                    nr as int,
                    p,
                ) && exists|q: int|
                    0 <= q < t + 1 && crate::components::is_adjacent8(
                        #[trigger] corridor_tiles@[q],
                        p,
                    ))) by {
                if crate::components::is_adjacent8(f, p) {
                    assert(crate::components::neighbor_seq(f).contains(p));
                    let q = choose|q: int| 0 <= q < 8 && crate::components::neighbor_seq(f)[q] == p;
                    assert(ns@[q] == p);
                    assert(corridor_tiles@[t as int] == f);
                }
                if exists|q: int| 0 <= q < 8 && #[trigger] ns@[q] == p {
                    let q = choose|q: int| 0 <= q < 8 && #[trigger] ns@[q] == p;
                    assert(crate::components::is_adjacent8(f, crate::components::neighbor_seq(f)[q]));
                }
                if exists|q: int|
                    0 <= q < t + 1 && crate::components::is_adjacent8(
                        #[trigger] corridor_tiles@[q],
                        p,
                    ) {
                    let q = choose|q: int|
                        0 <= q < t + 1 && crate::components::is_adjacent8(
                            #[trigger] corridor_tiles@[q],
                            p,
                        );
                    if q < t {
                        assert(exists|q2: int|
                            0 <= q2 < t && crate::components::is_adjacent8(
                                #[trigger] corridor_tiles@[q2],
                                p,
                            ));
                    }
                }
            }
        }
        t = t + 1;
    }
    assert forall|p: PositionComponent| #[trigger]
        candidates@.contains(p) <==> (on_borders(rs, nr as int, p) || (near_corridor(css, p)
            && !in_boxes(rs, nr as int, p))) by {
        if near_corridor(css, p) {
            let f = choose|f: PositionComponent|
                #![trigger on_corridors(css, css.len() as int, f), crate::components::is_adjacent8(f, p)]
                on_corridors(css, css.len() as int, f) && crate::components::is_adjacent8(f, p);
            assert(corridor_tiles@.contains(f));
            let q = choose|q: int| 0 <= q < nt && corridor_tiles@[q] == f;
            assert(crate::components::is_adjacent8(corridor_tiles@[q], p));
        }
        if exists|q: int|
            0 <= q < nt && crate::components::is_adjacent8(#[trigger] corridor_tiles@[q], p) {
            let q = choose|q: int|
                0 <= q < nt && crate::components::is_adjacent8(#[trigger] corridor_tiles@[q], p);
            let f = corridor_tiles@[q];
            assert(corridor_tiles@.contains(f));
            assert(on_corridors(css, css.len() as int, f));
        }
    }
    let mut k: usize = 0;
    while k < nr
        invariant
            nr == rs.len(),
            rs == rooms@,
            nc == css.len(),
            forall|j: int| 0 <= j < rs.len() ==> small_room(#[trigger] rs[j]),
            k <= nr,
            floor.wf(),
            forall|p: PositionComponent| #[trigger]
                floor@.contains(p) <==> (on_corridors(css, nc as int, p) || in_interiors(
                    rs,
                    k as int,
                    p,
                )),
        decreases nr - k,
    {
        add_interior(&mut floor, rooms[k]);
        k = k + 1;
    }
    let cand_list = candidates.to_vec();
    proof {
        candidates.lemma_list_view();
    }
    let mut walls = TileSet::new();
    let nw = cand_list.len();
    let mut w: usize = 0;
    while w < nw
        invariant
            nw == cand_list@.len(),
            w <= nw,
            floor.wf(),
            walls.wf(),
            forall|p: PositionComponent| #[trigger]
                walls@.contains(p) <==> (!floor@.contains(p) && exists|q: int|
                    0 <= q < w && #[trigger] cand_list@[q] == p),
        decreases nw - w,
    {
        let c = cand_list[w];
        if !floor.contains(c) {
            walls.insert(c);
        }
        proof {
            assert forall|p: PositionComponent| #[trigger]
                walls@.contains(p) <==> (!floor@.contains(p) && exists|q: int|
                    0 <= q < w + 1 && #[trigger] cand_list@[q] == p) by {
                if p == c {
                    assert(cand_list@[w as int] == p);
                }
                if exists|q: int| 0 <= q < w + 1 && #[trigger] cand_list@[q] == p {
                    let q = choose|q: int| 0 <= q < w + 1 && #[trigger] cand_list@[q] == p;
                    if q < w {
                        assert(exists|q2: int| 0 <= q2 < w && #[trigger] cand_list@[q2] == p);
                    }
                }
            }
        }
        w = w + 1;
    }
    let floor_list = floor.to_vec();
    let wall_list = walls.to_vec();
    proof {
        floor.lemma_list_view();
        walls.lemma_list_view();
        assert forall|p: PositionComponent| #[trigger]
            wall_list@.contains(p) <==> is_wall(rs, css, p) by {
            assert(wall_list@.contains(p) <==> walls@.contains(p));
            assert(floor@.contains(p) <==> is_floor(rs, css, p));
            assert(candidates@.contains(p) <==> candidates.list().contains(p));
            assert(cand_list@ == candidates.list());
            if candidates@.contains(p) {
                assert(cand_list@.contains(p));
                let q = choose|q: int| 0 <= q < nw && cand_list@[q] == p;
                assert(cand_list@[q] == p);
                assert(exists|q2: int| 0 <= q2 < nw && #[trigger] cand_list@[q2] == p);
            }
            if exists|q: int| 0 <= q < nw && #[trigger] cand_list@[q] == p {
                let q = choose|q: int| 0 <= q < nw && #[trigger] cand_list@[q] == p;
                assert(cand_list@.contains(p));
                assert(candidates@.contains(p));
            }
        }
        assert forall|p: PositionComponent| #[trigger]
            floor_list@.contains(p) <==> is_floor(rs, css, p) by {
            assert(floor@.contains(p) <==> floor.list().contains(p));
        }
    }
    (floor_list, wall_list)
}


pub proof fn lemma_on_corridors_witness(cs: Seq<Corridor>, n: int, p: PositionComponent)
    requires
        0 <= n <= cs.len(),
    ensures
        on_corridors(cs, n, p) <==> exists|k: int| 0 <= k < n && #[trigger] corridor_tile(cs[k], p),
    decreases n,
{
    if n > 0 {
        lemma_on_corridors_witness(cs, n - 1, p);
        if corridor_tile(cs[n - 1], p) {
            assert(0 <= n - 1 < n && corridor_tile(cs[n - 1], p));
        }
    }
}

/// Each corridor joins its two rooms: its start and end tiles are floor, as is
/// every tile of the row of `start` between both x's and every tile of the
/// column of `end` between both y's, so the L-shaped path from start to end
/// runs over floor only.
pub proof fn lemma_corridor_connects(rooms: Seq<Room>, cs: Seq<Corridor>, i: int)
    requires
        valid_room_layout(rooms),
        valid_corridors(rooms, cs),
        0 <= i < cs.len(),
    ensures
        is_floor(rooms, cs, cs[i].start),
        is_floor(rooms, cs, cs[i].end),
        forall|x: i32|
            min_int(cs[i].start.x as int, cs[i].end.x as int) <= x <= max_int(
                cs[i].start.x as int,
                cs[i].end.x as int,
            ) ==> #[trigger] is_floor(rooms, cs, PositionComponent { x, y: cs[i].start.y }),
        forall|y: i32|
            min_int(cs[i].start.y as int, cs[i].end.y as int) <= y <= max_int(
                cs[i].start.y as int,
                cs[i].end.y as int,
            ) ==> #[trigger] is_floor(rooms, cs, PositionComponent { x: cs[i].end.x, y }),
{
    let c = cs[i];
    assert(corridor_valid(rooms, c, i));
    lemma_in_interiors_witness(rooms, rooms.len() as int, c.start);
    assert(in_interior(rooms[i], c.start));
    lemma_in_interiors_witness(rooms, rooms.len() as int, c.end);
    assert(in_interior(rooms[c.end_room as int], c.end));
    assert forall|x: i32|
        min_int(c.start.x as int, c.end.x as int) <= x <= max_int(
            c.start.x as int,
            c.end.x as int,
        ) implies #[trigger] is_floor(rooms, cs, PositionComponent { x, y: c.start.y }) by {
        let p = PositionComponent { x, y: c.start.y };
        lemma_on_corridors_witness(cs, cs.len() as int, p);
        if x == c.start.x {
            assert(p == c.start);
        } else if x == c.end.x {
            assert(corridor_tile(c, p));
        } else {
            assert(corridor_tile(c, p));
        }
    }
    assert forall|y: i32|
        min_int(c.start.y as int, c.end.y as int) <= y <= max_int(
            c.start.y as int,
            c.end.y as int,
        ) implies #[trigger] is_floor(rooms, cs, PositionComponent { x: c.end.x, y }) by {
        let p = PositionComponent { x: c.end.x, y };
        lemma_on_corridors_witness(cs, cs.len() as int, p);
        assert(corridor_tile(c, p));
    }
}

/// The room the staircase goes in: the second room, or the starting room when
/// it is the only one.
pub open spec fn staircase_room(rooms: Seq<Room>) -> Room {
    if rooms.len() >= 2 {
        rooms[1]
    } else {
        rooms[0]
    }
}

/// `p` is inside the room and not on its outermost rows or columns.
pub open spec fn strictly_inside(r: Room, p: PositionComponent) -> bool {
    &&& crate::components::abs(p.x - r.center.x) < r.x_radius
    &&& crate::components::abs(p.y - r.center.y) < r.y_radius
}

/// A random tile of the staircase room away from its edges (x drawn first).
pub fn place_staircase(rooms: &Vec<Room>, rng: &mut Pcg64) -> (p: PositionComponent)
    requires
        valid_room_layout(rooms@),
    ensures
        strictly_inside(staircase_room(rooms@), p),
{
    let room = if rooms.len() >= 2 {
        rooms[1]
    } else {
        rooms[0]
    };
    assert(room_in_bounds(room));
    let x = gen_range_i32(
        rng,
        room.center.x - room.x_radius as i32 + 1,
        room.center.x + room.x_radius as i32,
    );
    let y = gen_range_i32(
        rng,
        room.center.y - room.y_radius as i32 + 1,
        room.center.y + room.y_radius as i32,
    );
    PositionComponent { x, y }
}

/// The layout of one floor.
pub struct FloorPlan {
    pub rooms: Vec<Room>,
    pub corridors: Vec<Corridor>,
    pub floor: Vec<PositionComponent>,
    pub walls: Vec<PositionComponent>,
}

impl FloorPlan {
    /// Rooms and corridors as placement guarantees them, and the floor and
    /// wall lists holding exactly the floor and wall tiles they make up.
    pub open spec fn valid(&self) -> bool {
        &&& valid_room_layout(self.rooms@)
        &&& valid_corridors(self.rooms@, self.corridors@)
        &&& self.floor@.no_duplicates()
        &&& self.walls@.no_duplicates()
        &&& forall|p: PositionComponent| #[trigger]
            self.floor@.contains(p) <==> is_floor(self.rooms@, self.corridors@, p)
        &&& forall|p: PositionComponent| #[trigger]
            self.walls@.contains(p) <==> is_wall(self.rooms@, self.corridors@, p)
    }
}

/// Places rooms, digs corridors, and lists the floor and wall tiles.
pub fn generate_dungeon(rng: &mut Pcg64) -> (plan: FloorPlan)
    ensures
        plan.valid(),
{
    let rooms = place_rooms(rng);
    let corridors = dig_corridors(&rooms, rng);
    proof {
        lemma_valid_is_drawn(rooms@, corridors@);
    }
    let (floor, walls) = floor_and_walls(&rooms, &corridors);
    FloorPlan { rooms, corridors, floor, walls }
}

} // verus!
